//! Named markers on the audio timeline, kept in time order, and the inline
//! editing of their names.
//!
//! A marker's time is held as the bit pattern of an IEEE 754 double; markers
//! are ordered by the total order on doubles (`f64::total_cmp`), which on bit
//! patterns is the order of `order_key`.

use vstd::prelude::*;
use crate::text::{chars_of, string_of, trim_chars, spec_trim};
use crate::timefmt::{
    all_digits, decimal, decimal_string, format_time_ms, law_decimal_reads_back, read_decimal,
    spec_format_time_ms,
};

verus! {

/// Position of a double in the total order of doubles, from its bit pattern:
/// non-negative doubles by their bits, negative ones below them, the more
/// negative the lower.
pub open spec fn order_key(bits: u64) -> int {
    if bits < 0x8000_0000_0000_0000 {
        bits as int
    } else {
        0x7FFF_FFFF_FFFF_FFFF - bits as int
    }
}

/// `order_key` computed.
pub fn time_order_key(bits: u64) -> (k: i128)
    ensures
        k as int == order_key(bits),
{
    if bits < 0x8000_0000_0000_0000 {
        bits as i128
    } else {
        0x7FFF_FFFF_FFFF_FFFFi128 - bits as i128
    }
}

/// Named marker on the audio timeline.
#[derive(Debug, Clone)]
pub struct TimelineTag {
    /// Stable identifier used for editing and hit-testing.
    pub id: u64,
    /// Bit pattern of the marker's position in seconds.
    pub time_bits: u64,
    /// The marker's position in whole milliseconds, used for its default label.
    pub time_ms: u64,
    /// User-visible name.
    pub name: String,
}

pub ghost struct TagView {
    pub id: u64,
    pub time_bits: u64,
    pub time_ms: u64,
    pub name: Seq<char>,
}

impl View for TimelineTag {
    type V = TagView;

    open spec fn view(&self) -> TagView {
        TagView { id: self.id, time_bits: self.time_bits, time_ms: self.time_ms, name: self.name@ }
    }
}

pub open spec fn sorted_by_time(s: Seq<TagView>) -> bool {
    forall|i: int, j: int|
        0 <= i < j < s.len() ==> order_key(#[trigger] s[i].time_bits) <= order_key(
            #[trigger] s[j].time_bits,
        )
}

pub open spec fn ids_distinct(s: Seq<TagView>) -> bool {
    forall|i: int, j: int| 0 <= i < j < s.len() ==> #[trigger] s[i].id != #[trigger] s[j].id
}

pub open spec fn ids_below(s: Seq<TagView>, bound: u64) -> bool {
    forall|i: int| 0 <= i < s.len() ==> #[trigger] s[i].id < bound
}

/// Where a marker at `bits` goes among time-ordered markers: before the first
/// marker that is strictly later, so that markers at equal times keep the
/// order in which they were added.
pub open spec fn insertion_index(s: Seq<TagView>, bits: u64, from: int) -> int
    decreases s.len() - from,
{
    if from >= s.len() {
        s.len() as int
    } else if order_key(s[from].time_bits) > order_key(bits) {
        from
    } else {
        insertion_index(s, bits, from + 1)
    }
}

/// Index of the first marker with the given id.
pub open spec fn index_of_id(s: Seq<TagView>, id: u64) -> Option<int>
    decreases s.len(),
{
    if s.len() == 0 {
        None
    } else {
        match index_of_id(s.drop_last(), id) {
            Some(i) => Some(i),
            None => if s.last().id == id {
                Some((s.len() - 1) as int)
            } else {
                None
            },
        }
    }
}

/// The default name of a new marker: `Tag ` and its id.
pub open spec fn default_tag_name(id: u64) -> Seq<char> {
    seq!['T', 'a', 'g', ' '] + decimal(id as nat)
}

/// The name a marker gets when an edit is applied: the trimmed editor text, or
/// the marker's time as `MM:SS.mmm` when that is blank.
pub open spec fn edited_name(text: Seq<char>, time_ms: u64) -> Seq<char> {
    if spec_trim(text).len() == 0 {
        spec_format_time_ms(time_ms as nat)
    } else {
        spec_trim(text)
    }
}

/// The markers of a timeline and the state of the inline name editor.
pub struct TimelineTags {
    tags: Vec<TimelineTag>,
    next_id: u64,
    editing_id: Option<u64>,
    editor_text: String,
    editor_needs_focus: bool,
}

impl TimelineTags {
    /// The markers, in time order.
    pub closed spec fn entries(&self) -> Seq<TagView> {
        self.tags@.map_values(|t: TimelineTag| t@)
    }

    /// The id the next marker will get.
    pub closed spec fn next_id_spec(&self) -> u64 {
        self.next_id
    }

    /// The marker whose name is being edited, if any.
    pub closed spec fn editing_spec(&self) -> Option<u64> {
        self.editing_id
    }

    /// The text in the inline name editor.
    pub closed spec fn editor_text_spec(&self) -> Seq<char> {
        self.editor_text@
    }

    /// Whether the editor asks for keyboard focus.
    pub closed spec fn needs_focus_spec(&self) -> bool {
        self.editor_needs_focus
    }

    /// The markers are in time order, their ids are distinct and all below
    /// the next id.
    pub open spec fn wf(&self) -> bool {
        &&& sorted_by_time(self.entries())
        &&& ids_distinct(self.entries())
        &&& ids_below(self.entries(), self.next_id_spec())
    }

    /// No markers; the first id is 1 and nothing is being edited.
    pub fn new() -> (t: Self)
        ensures
            t.wf(),
            t.entries() == Seq::<TagView>::empty(),
            t.next_id_spec() == 1,
            t.editing_spec() is None,
            t.editor_text_spec() == Seq::<char>::empty(),
            !t.needs_focus_spec(),
    {
        let t = TimelineTags {
            tags: Vec::new(),
            next_id: 1,
            editing_id: None,
            editor_text: String::new(),
            editor_needs_focus: false,
        };
        proof {
            assert(t.entries() =~= Seq::<TagView>::empty());
        }
        t
    }

    /// The markers, in time order.
    pub fn list(&self) -> (r: &Vec<TimelineTag>)
        ensures
            r@.map_values(|t: TimelineTag| t@) == self.entries(),
    {
        &self.tags
    }

    /// The id the next marker will get.
    pub fn next_id(&self) -> (r: u64)
        ensures
            r == self.next_id_spec(),
    {
        self.next_id
    }

    /// The marker whose name is being edited, if any.
    pub fn editing_id(&self) -> (r: Option<u64>)
        ensures
            r == self.editing_spec(),
    {
        self.editing_id
    }

    /// The text in the inline name editor.
    pub fn editor_text(&self) -> (r: &String)
        ensures
            r@ == self.editor_text_spec(),
    {
        &self.editor_text
    }

    /// Replaces the text in the inline name editor.
    pub fn set_editor_text(&mut self, text: String)
        ensures
            final(self).editor_text_spec() == text@,
            final(self).entries() == old(self).entries(),
            final(self).next_id_spec() == old(self).next_id_spec(),
            final(self).editing_spec() == old(self).editing_spec(),
            final(self).needs_focus_spec() == old(self).needs_focus_spec(),
    {
        self.editor_text = text;
    }

    /// Whether the editor asks for keyboard focus.
    pub fn editor_needs_focus(&self) -> (r: bool)
        ensures
            r == self.needs_focus_spec(),
    {
        self.editor_needs_focus
    }

    /// Withdraws the editor's request for keyboard focus, once granted.
    pub fn focus_granted(&mut self)
        ensures
            !final(self).needs_focus_spec(),
            final(self).editor_text_spec() == old(self).editor_text_spec(),
            final(self).entries() == old(self).entries(),
            final(self).next_id_spec() == old(self).next_id_spec(),
            final(self).editing_spec() == old(self).editing_spec(),
    {
        self.editor_needs_focus = false;
    }

    /// Adds a marker with the given time and name, keeping time order (after
    /// any markers at the same time), and returns its id.
    pub fn insert_named(&mut self, time_bits: u64, time_ms: u64, name: String) -> (id: u64)
        requires
            old(self).wf(),
            old(self).next_id_spec() < u64::MAX,
        ensures
            final(self).wf(),
            id == old(self).next_id_spec(),
            final(self).next_id_spec() == old(self).next_id_spec() + 1,
            final(self).entries() == old(self).entries().insert(
                insertion_index(old(self).entries(), time_bits, 0),
                TagView { id, time_bits, time_ms, name: name@ },
            ),
            final(self).editing_spec() == old(self).editing_spec(),
            final(self).editor_text_spec() == old(self).editor_text_spec(),
            final(self).needs_focus_spec() == old(self).needs_focus_spec(),
    {
        let ghost s = self.entries();
        let id = self.next_id;
        let key = time_order_key(time_bits);
        let mut p: usize = 0;
        while p < self.tags.len() && time_order_key(self.tags[p].time_bits) <= key
            invariant
                0 <= p <= self.tags@.len(),
                s == self.tags@.map_values(|t: TimelineTag| t@),
                key as int == order_key(time_bits),
                insertion_index(s, time_bits, p as int) == insertion_index(s, time_bits, 0),
                forall|i: int| 0 <= i < p ==> order_key(#[trigger] s[i].time_bits) <= order_key(
                    time_bits,
                ),
            decreases self.tags@.len() - p,
        {
            assert(s[p as int] == self.tags@[p as int]@);
            p = p + 1;
        }
        proof {
            if p < s.len() {
                assert(s[p as int] == self.tags@[p as int]@);
            }
            assert(insertion_index(s, time_bits, p as int) == p);
        }
        let tag = TimelineTag { id, time_bits, time_ms, name };
        let ghost tv = tag@;
        self.tags.insert(p, tag);
        self.next_id = id + 1;
        proof {
            let e = self.entries();
            assert(e =~= s.insert(p as int, tv));
            assert forall|i: int, j: int| 0 <= i < j < e.len() implies order_key(
                #[trigger] e[i].time_bits,
            ) <= order_key(#[trigger] e[j].time_bits) by {
                if j < p {
                    assert(e[i] == s[i] && e[j] == s[j]);
                } else if j == p {
                    assert(e[i] == s[i]);
                } else if i < p {
                    assert(e[i] == s[i] && e[j] == s[j - 1]);
                    assert(order_key(s[p as int].time_bits) > order_key(time_bits));
                    if j - 1 > p {
                        assert(order_key(s[p as int].time_bits) <= order_key(s[j - 1].time_bits));
                    }
                } else if i == p {
                    assert(e[j] == s[j - 1]);
                    assert(order_key(s[p as int].time_bits) > order_key(time_bits));
                    if j - 1 > p {
                        assert(order_key(s[p as int].time_bits) <= order_key(s[j - 1].time_bits));
                    }
                } else {
                    assert(e[i] == s[i - 1] && e[j] == s[j - 1]);
                }
            }
            assert forall|i: int, j: int| 0 <= i < j < e.len() implies #[trigger] e[i].id
                != #[trigger] e[j].id by {
                if j < p {
                    assert(e[i] == s[i] && e[j] == s[j]);
                } else if j == p {
                    assert(e[i] == s[i]);
                } else if i < p {
                    assert(e[i] == s[i] && e[j] == s[j - 1]);
                } else if i == p {
                    assert(e[j] == s[j - 1]);
                } else {
                    assert(e[i] == s[i - 1] && e[j] == s[j - 1]);
                }
            }
            assert forall|i: int| 0 <= i < e.len() implies #[trigger] e[i].id < id + 1 by {
                if i < p {
                    assert(e[i] == s[i]);
                } else if i > p {
                    assert(e[i] == s[i - 1]);
                }
            }
        }
        id
    }

    /// Adds a marker named `Tag <id>` at the given time and returns its id.
    pub fn add(&mut self, time_bits: u64, time_ms: u64) -> (id: u64)
        requires
            old(self).wf(),
            old(self).next_id_spec() < u64::MAX,
        ensures
            final(self).wf(),
            id == old(self).next_id_spec(),
            final(self).next_id_spec() == old(self).next_id_spec() + 1,
            final(self).entries() == old(self).entries().insert(
                insertion_index(old(self).entries(), time_bits, 0),
                TagView { id, time_bits, time_ms, name: default_tag_name(id) },
            ),
            final(self).editing_spec() == old(self).editing_spec(),
            final(self).editor_text_spec() == old(self).editor_text_spec(),
            final(self).needs_focus_spec() == old(self).needs_focus_spec(),
    {
        let id = self.next_id;
        let mut name: Vec<char> = vec!['T', 'a', 'g', ' '];
        let digits = chars_of(decimal_string(id).as_str());
        let ghost head = name@;
        let mut i: usize = 0;
        while i < digits.len()
            invariant
                0 <= i <= digits@.len(),
                name@ == head + digits@.take(i as int),
            decreases digits@.len() - i,
        {
            name.push(digits[i]);
            proof {
                assert(digits@.take(i + 1) =~= digits@.take(i as int).push(digits@[i as int]));
            }
            i = i + 1;
        }
        proof {
            assert(digits@.take(i as int) =~= digits@);
            assert(name@ =~= default_tag_name(id));
        }
        self.insert_named(time_bits, time_ms, string_of(&name))
    }

    fn index_of(&self, id: u64) -> (r: Option<usize>)
        ensures
            match r {
                Some(i) => index_of_id(self.entries(), id) == Some(i as int) && i < self.tags@.len(),
                None => index_of_id(self.entries(), id) is None,
            },
    {
        let ghost s = self.entries();
        let mut i: usize = 0;
        while i < self.tags.len()
            invariant
                0 <= i <= self.tags@.len(),
                s == self.tags@.map_values(|t: TimelineTag| t@),
                index_of_id(s.take(i as int), id) is None,
            decreases self.tags@.len() - i,
        {
            proof {
                assert(s.take(i + 1).drop_last() =~= s.take(i as int));
                assert(s[i as int] == self.tags@[i as int]@);
            }
            if self.tags[i].id == id {
                proof {
                    lemma_index_of_id_prefix(s, id, i + 1);
                }
                return Some(i);
            }
            i = i + 1;
        }
        proof {
            assert(s.take(i as int) =~= s);
        }
        None
    }

    /// The first marker with the given id.
    pub fn find(&self, id: u64) -> (r: Option<&TimelineTag>)
        ensures
            match index_of_id(self.entries(), id) {
                Some(i) => r is Some && r->0@ == self.entries()[i],
                None => r is None,
            },
    {
        match self.index_of(id) {
            Some(i) => Some(&self.tags[i]),
            None => None,
        }
    }

    /// Starts editing the name of the marker with the given id, if there is
    /// one: the editor gets its name and asks for focus.
    pub fn begin_edit(&mut self, id: u64)
        requires
            old(self).wf(),
        ensures
            final(self).wf(),
            final(self).entries() == old(self).entries(),
            final(self).next_id_spec() == old(self).next_id_spec(),
            match index_of_id(old(self).entries(), id) {
                Some(i) => {
                    &&& final(self).editing_spec() == Some(id)
                    &&& final(self).editor_text_spec() == old(self).entries()[i].name
                    &&& final(self).needs_focus_spec()
                },
                None => {
                    &&& final(self).editing_spec() == old(self).editing_spec()
                    &&& final(self).editor_text_spec() == old(self).editor_text_spec()
                    &&& final(self).needs_focus_spec() == old(self).needs_focus_spec()
                },
            },
    {
        let name = match self.find(id) {
            Some(tag) => tag.name.clone(),
            None => return ,
        };
        self.editing_id = Some(id);
        self.editor_text = name;
        self.editor_needs_focus = true;
    }

    /// Ends editing. When `apply` holds and the edited marker still exists, it
    /// is renamed to the trimmed editor text, or to its time as `MM:SS.mmm`
    /// when that text is blank. The editor is then closed and emptied.
    pub fn finish_edit(&mut self, apply: bool)
        requires
            old(self).wf(),
        ensures
            final(self).wf(),
            final(self).next_id_spec() == old(self).next_id_spec(),
            final(self).editing_spec() is None,
            final(self).editor_text_spec() == Seq::<char>::empty(),
            !final(self).needs_focus_spec(),
            ({
                let s = old(self).entries();
                match old(self).editing_spec() {
                    Some(id) => match index_of_id(s, id) {
                        Some(i) => if apply {
                            final(self).entries() == s.update(
                                i,
                                TagView {
                                    name: edited_name(old(self).editor_text_spec(), s[i].time_ms),
                                    ..s[i]
                                },
                            )
                        } else {
                            final(self).entries() == s
                        },
                        None => final(self).entries() == s,
                    },
                    None => final(self).entries() == s,
                }
            }),
    {
        let ghost s = self.entries();
        if apply {
            if let Some(id) = self.editing_id {
                if let Some(i) = self.index_of(id) {
                    let text = chars_of(self.editor_text.as_str());
                    let trimmed = trim_chars(&text);
                    let new_name = if trimmed.len() == 0 {
                        format_time_ms(self.tags[i].time_ms)
                    } else {
                        string_of(&trimmed)
                    };
                    let old_tag = &self.tags[i];
                    let renamed = TimelineTag {
                        id: old_tag.id,
                        time_bits: old_tag.time_bits,
                        time_ms: old_tag.time_ms,
                        name: new_name,
                    };
                    self.tags.set(i, renamed);
                    proof {
                        assert(s[i as int] == old(self).tags@[i as int]@);
                        assert(self.entries() =~= s.update(
                            i as int,
                            TagView {
                                name: edited_name(old(self).editor_text_spec(), s[i as int].time_ms),
                                ..s[i as int]
                            },
                        ));
                    }
                }
            }
        }
        self.editing_id = None;
        self.editor_text = String::new();
        self.editor_needs_focus = false;
    }
}

proof fn lemma_index_of_id_absent(s: Seq<TagView>, id: u64)
    requires
        forall|i: int| 0 <= i < s.len() ==> #[trigger] s[i].id != id,
    ensures
        index_of_id(s, id) is None,
    decreases s.len(),
{
    if s.len() > 0 {
        let d = s.drop_last();
        assert forall|i: int| 0 <= i < d.len() implies #[trigger] d[i].id != id by {
            assert(d[i] == s[i]);
        }
        lemma_index_of_id_absent(d, id);
        assert(s.last() == s[s.len() - 1]);
    }
}

proof fn lemma_insertion_index_bounds(s: Seq<TagView>, bits: u64, from: int)
    requires
        0 <= from,
    ensures
        from <= insertion_index(s, bits, from) <= s.len() || (from > s.len()
            && insertion_index(s, bits, from) == s.len()),
    decreases s.len() - from,
{
    if from < s.len() && order_key(s[from].time_bits) <= order_key(bits) {
        lemma_insertion_index_bounds(s, bits, from + 1);
    }
}

/// A marker added with a fresh id is the one found under that id, at the
/// place where it was inserted.
pub proof fn law_inserted_tag_is_found(s: Seq<TagView>, next: u64, tag: TagView)
    requires
        ids_below(s, next),
        tag.id == next,
    ensures
        ({
            let p = insertion_index(s, tag.time_bits, 0);
            let t = s.insert(p, tag);
            &&& index_of_id(t, next) == Some(p)
            &&& t[p] == tag
        }),
{
    let p = insertion_index(s, tag.time_bits, 0);
    lemma_insertion_index_bounds(s, tag.time_bits, 0);
    let t = s.insert(p, tag);
    let pre = t.take(p);
    assert forall|i: int| 0 <= i < pre.len() implies #[trigger] pre[i].id != next by {
        assert(pre[i] == s[i]);
    }
    lemma_index_of_id_absent(pre, next);
    lemma_index_of_id_prefix(t, next, p + 1);
}

/// Adding markers in any order leaves them in time order: a marker inserted
/// at its insertion index into time-ordered markers keeps them time-ordered.
pub proof fn law_insertion_keeps_time_order(s: Seq<TagView>, tag: TagView)
    requires
        sorted_by_time(s),
    ensures
        sorted_by_time(s.insert(insertion_index(s, tag.time_bits, 0), tag)),
{
    let p = insertion_index(s, tag.time_bits, 0);
    lemma_insertion_index_bounds(s, tag.time_bits, 0);
    lemma_insertion_index_prefix(s, tag.time_bits, 0);
    let e = s.insert(p, tag);
    assert forall|i: int, j: int| 0 <= i < j < e.len() implies order_key(
        #[trigger] e[i].time_bits,
    ) <= order_key(#[trigger] e[j].time_bits) by {
        if j < p {
            assert(e[i] == s[i] && e[j] == s[j]);
        } else if j == p {
            assert(e[i] == s[i]);
        } else if i < p {
            assert(e[i] == s[i] && e[j] == s[j - 1]);
            if j - 1 > p {
                assert(order_key(s[p].time_bits) <= order_key(s[j - 1].time_bits));
            }
        } else if i == p {
            assert(e[j] == s[j - 1]);
            if j - 1 > p {
                assert(order_key(s[p].time_bits) <= order_key(s[j - 1].time_bits));
            }
        } else {
            assert(e[i] == s[i - 1] && e[j] == s[j - 1]);
        }
    }
}

proof fn lemma_insertion_index_prefix(s: Seq<TagView>, bits: u64, from: int)
    requires
        0 <= from <= s.len(),
    ensures
        forall|i: int|
            from <= i < insertion_index(s, bits, from) ==> order_key(#[trigger] s[i].time_bits)
                <= order_key(bits),
        insertion_index(s, bits, from) < s.len() ==> order_key(
            s[insertion_index(s, bits, from)].time_bits,
        ) > order_key(bits),
    decreases s.len() - from,
{
    if from < s.len() && order_key(s[from].time_bits) <= order_key(bits) {
        lemma_insertion_index_prefix(s, bits, from + 1);
    }
}

proof fn lemma_index_of_id_prefix(s: Seq<TagView>, id: u64, k: int)
    requires
        0 < k <= s.len(),
        index_of_id(s.take(k - 1), id) is None,
        s[k - 1].id == id,
    ensures
        index_of_id(s, id) == Some(k - 1),
    decreases s.len(),
{
    if k < s.len() {
        assert(s.drop_last().take(k - 1) =~= s.take(k - 1));
        lemma_index_of_id_prefix(s.drop_last(), id, k);
    } else {
        assert(s.drop_last() =~= s.take(k - 1));
    }
}


/// A new marker's default name is `Tag ` followed by its id in decimal: the
/// text after `Tag ` is a non-empty run of digits, without a leading zero
/// unless it is `0`, that reads back as the id.
pub proof fn law_default_tag_name(id: u64)
    ensures
        ({
            let name = default_tag_name(id);
            let digits = name.skip(4);
            &&& name.len() > 4
            &&& name.take(4) == seq!['T', 'a', 'g', ' ']
            &&& all_digits(digits)
            &&& read_decimal(digits) == id
            &&& digits.len() > 1 ==> digits[0] != '0'
        }),
{
    law_decimal_reads_back(id as nat);
    let name = default_tag_name(id);
    assert(name.skip(4) =~= decimal(id as nat));
    assert(name.take(4) =~= seq!['T', 'a', 'g', ' ']);
}

} // verus!
