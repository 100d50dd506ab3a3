//! Unix path structure: components, file names, extensions and stems.
//!
//! A path is read the way `std::path::Path` reads it on Unix: separated by
//! `/`, a leading `/` is the root, empty and `.` segments are normalized away
//! except for a `.` that begins a relative path, and `..` names the parent.

use vstd::prelude::*;
use crate::text::{chars_of, string_of};

verus! {

/// One component of a path.
pub ghost enum SpecComponent {
    RootDir,
    CurDir,
    ParentDir,
    Normal(Seq<char>),
}

/// One component of a path.
#[derive(Debug, Clone)]
pub enum Component {
    RootDir,
    CurDir,
    ParentDir,
    Normal(Vec<char>),
}

impl View for Component {
    type V = SpecComponent;

    open spec fn view(&self) -> SpecComponent {
        match self {
            Component::RootDir => SpecComponent::RootDir,
            Component::CurDir => SpecComponent::CurDir,
            Component::ParentDir => SpecComponent::ParentDir,
            Component::Normal(v) => SpecComponent::Normal(v@),
        }
    }
}

/// The pieces between `/` separators, as `str::split('/')` gives them.
pub open spec fn split_slash(s: Seq<char>) -> Seq<Seq<char>>
    decreases s.len(),
{
    if s.len() == 0 {
        seq![Seq::<char>::empty()]
    } else {
        let r = split_slash(s.drop_last());
        if s.last() == '/' {
            r.push(Seq::<char>::empty())
        } else {
            r.update(r.len() - 1, r.last().push(s.last()))
        }
    }
}

proof fn lemma_split_nonempty(s: Seq<char>)
    ensures
        split_slash(s).len() >= 1,
    decreases s.len(),
{
    if s.len() > 0 {
        lemma_split_nonempty(s.drop_last());
    }
}

/// The component a segment contributes; `leading` tells whether it is the
/// first segment of a relative path.
pub open spec fn segment_component(seg: Seq<char>, leading: bool) -> Option<SpecComponent> {
    if seg.len() == 0 {
        None
    } else if seg == seq!['.'] {
        if leading {
            Some(SpecComponent::CurDir)
        } else {
            None
        }
    } else if seg == seq!['.', '.'] {
        Some(SpecComponent::ParentDir)
    } else {
        Some(SpecComponent::Normal(seg))
    }
}

pub open spec fn components_of_segments(segs: Seq<Seq<char>>, rooted: bool) -> Seq<SpecComponent>
    decreases segs.len(),
{
    if segs.len() == 0 {
        if rooted {
            seq![SpecComponent::RootDir]
        } else {
            Seq::<SpecComponent>::empty()
        }
    } else {
        let prev = components_of_segments(segs.drop_last(), rooted);
        match segment_component(segs.last(), segs.len() == 1 && !rooted) {
            Some(c) => prev.push(c),
            None => prev,
        }
    }
}

pub open spec fn is_rooted(s: Seq<char>) -> bool {
    s.len() > 0 && s[0] == '/'
}

/// The components of a path.
pub open spec fn spec_components(s: Seq<char>) -> Seq<SpecComponent> {
    components_of_segments(split_slash(s), is_rooted(s))
}

/// Whether no character of `x` is a `/`.
pub open spec fn no_slash(x: Seq<char>) -> bool {
    forall|k: int| 0 <= k < x.len() ==> x[k] != '/'
}

/// Whether `x` can stand as a normal component: a non-empty segment without
/// `/` that is neither `.` nor `..`.
pub open spec fn plain_segment(x: Seq<char>) -> bool {
    &&& x.len() > 0
    &&& no_slash(x)
    &&& x != seq!['.']
    &&& x != seq!['.', '.']
}

proof fn lemma_split_segments_have_no_slash(s: Seq<char>)
    ensures
        forall|i: int| 0 <= i < split_slash(s).len() ==> no_slash(#[trigger] split_slash(s)[i]),
    decreases s.len(),
{
    if s.len() > 0 {
        lemma_split_segments_have_no_slash(s.drop_last());
        lemma_split_nonempty(s.drop_last());
        let r = split_slash(s.drop_last());
        if s.last() != '/' {
            let seg = r.last().push(s.last());
            assert(no_slash(r[r.len() - 1]));
            assert forall|k: int| 0 <= k < seg.len() implies seg[k] != '/' by {
                if k < seg.len() - 1 {
                    assert(seg[k] == r[r.len() - 1][k]);
                }
            }
            assert forall|i: int| 0 <= i < split_slash(s).len() implies no_slash(
                #[trigger] split_slash(s)[i],
            ) by {
                if i < r.len() - 1 {
                    assert(split_slash(s)[i] == r[i]);
                }
            }
        } else {
            assert forall|i: int| 0 <= i < split_slash(s).len() implies no_slash(
                #[trigger] split_slash(s)[i],
            ) by {
                if i < r.len() {
                    assert(split_slash(s)[i] == r[i]);
                }
            }
        }
    }
}

proof fn lemma_normal_components_are_plain(segs: Seq<Seq<char>>, rooted: bool)
    requires
        forall|j: int| 0 <= j < segs.len() ==> no_slash(#[trigger] segs[j]),
    ensures
        forall|i: int|
            0 <= i < components_of_segments(segs, rooted).len() && (
            #[trigger] components_of_segments(segs, rooted)[i]) is Normal ==> plain_segment(
                components_of_segments(segs, rooted)[i]->Normal_0,
            ),
    decreases segs.len(),
{
    if segs.len() > 0 {
        let prev = components_of_segments(segs.drop_last(), rooted);
        assert forall|j: int| 0 <= j < segs.drop_last().len() implies no_slash(
            #[trigger] segs.drop_last()[j],
        ) by {
            assert(segs.drop_last()[j] == segs[j]);
        }
        lemma_normal_components_are_plain(segs.drop_last(), rooted);
        assert(no_slash(segs[segs.len() - 1]));
        let c = components_of_segments(segs, rooted);
        assert forall|i: int| 0 <= i < c.len() && (#[trigger] c[i]) is Normal implies plain_segment(
            c[i]->Normal_0,
        ) by {
            if i < prev.len() {
                assert(c[i] == prev[i]);
            }
        }
    }
}

/// The file name of a path is a plain segment.
pub proof fn lemma_file_name_is_plain(s: Seq<char>)
    ensures
        spec_file_name(s) matches Some(n) ==> plain_segment(n),
{
    lemma_split_segments_have_no_slash(s);
    lemma_normal_components_are_plain(split_slash(s), is_rooted(s));
    let c = spec_components(s);
    if c.len() > 0 {
        assert(c.last() == c[c.len() - 1]);
    }
}

proof fn lemma_split_of_plain(n: Seq<char>)
    requires
        no_slash(n),
    ensures
        split_slash(n) == seq![n],
    decreases n.len(),
{
    if n.len() == 0 {
        assert(n =~= Seq::<char>::empty());
        assert(split_slash(n) =~= seq![n]);
    } else {
        assert(no_slash(n.drop_last())) by {
            assert forall|k: int| 0 <= k < n.drop_last().len() implies n.drop_last()[k] != '/' by {
                assert(n.drop_last()[k] == n[k]);
            }
        }
        lemma_split_of_plain(n.drop_last());
        assert(n[n.len() - 1] != '/');
        assert(n.drop_last().push(n.last()) =~= n);
        let r = split_slash(n.drop_last());
        assert(r.last() == n.drop_last());
        assert(split_slash(n) == r.update(0, n.drop_last().push(n.last())));
        assert(split_slash(n) =~= seq![n]);
    }
}

/// A plain segment, read as a path, is that one normal component.
pub proof fn lemma_plain_segment_components(n: Seq<char>)
    requires
        plain_segment(n),
    ensures
        spec_components(n) == seq![SpecComponent::Normal(n)],
{
    lemma_split_of_plain(n);
    assert(n[0] != '/');
    assert(!is_rooted(n));
    let segs = seq![n];
    assert(segs.drop_last() =~= Seq::<Seq<char>>::empty());
    assert(segs.last() == n);
    assert(components_of_segments(segs.drop_last(), false) == Seq::<SpecComponent>::empty());
    assert(segment_component(n, true) == Some(SpecComponent::Normal(n)));
    assert(spec_components(n) =~= seq![SpecComponent::Normal(n)]);
}

proof fn lemma_split_append_plain(a: Seq<char>, n: Seq<char>)
    requires
        no_slash(n),
        a.len() == 0 || a.last() == '/',
    ensures
        split_slash(a + n) == split_slash(a).update(split_slash(a).len() - 1, n),
    decreases n.len(),
{
    lemma_split_nonempty(a);
    if n.len() == 0 {
        assert(n =~= Seq::<char>::empty());
        assert(a + n =~= a);
        if a.len() == 0 {
            assert(a =~= Seq::<char>::empty());
            assert(split_slash(a) == seq![Seq::<char>::empty()]);
            assert(split_slash(a).update(0, n) =~= split_slash(a));
        } else {
            let r = split_slash(a.drop_last());
            assert(split_slash(a) == r.push(Seq::<char>::empty()));
            assert(split_slash(a).update(split_slash(a).len() - 1, n) =~= split_slash(a));
        }
    } else {
        lemma_split_append_plain(a, n.drop_last());
        assert((a + n).drop_last() =~= a + n.drop_last());
        assert((a + n).last() == n.last());
        assert(n.last() == n[n.len() - 1]);
        assert(n.drop_last().push(n.last()) =~= n);
        assert(split_slash(a + n) =~= split_slash(a).update(split_slash(a).len() - 1, n));
    }
}

/// Joining a plain segment onto a directory gives a path whose file name is
/// that segment.
pub proof fn lemma_join_file_name(dir: Seq<char>, n: Seq<char>)
    requires
        plain_segment(n),
    ensures
        spec_file_name(spec_join_relative(dir, n)) == Some(n),
{
    let a = if dir.len() > 0 && dir.last() != '/' {
        dir.push('/')
    } else {
        dir
    };
    assert(spec_join_relative(dir, n) == a + n);
    lemma_split_append_plain(a, n);
    lemma_split_nonempty(a);
    let segs = split_slash(a + n);
    assert(segs.last() == n);
    let c = spec_components(a + n);
    assert(c == components_of_segments(segs, is_rooted(a + n)));
    assert(c.last() == SpecComponent::Normal(n));
}

/// The last component of a path, when it is a normal one.
pub open spec fn spec_file_name(s: Seq<char>) -> Option<Seq<char>> {
    let c = spec_components(s);
    if c.len() > 0 {
        match c.last() {
            SpecComponent::Normal(n) => Some(n),
            _ => None,
        }
    } else {
        None
    }
}

/// Index of the last `.` in `s`, if any.
pub open spec fn last_dot(s: Seq<char>) -> Option<int>
    decreases s.len(),
{
    if s.len() == 0 {
        None
    } else if s.last() == '.' {
        Some((s.len() - 1) as int)
    } else {
        last_dot(s.drop_last())
    }
}

/// The extension of a file name: what follows its last `.`, unless that dot
/// begins the name.
pub open spec fn name_extension(name: Seq<char>) -> Option<Seq<char>> {
    match last_dot(name) {
        Some(i) => if i == 0 {
            None
        } else {
            Some(name.skip(i + 1))
        },
        None => None,
    }
}

/// The stem of a file name: what precedes its last `.`; the whole name when
/// there is no dot or the only relevant dot begins the name.
pub open spec fn name_stem(name: Seq<char>) -> Seq<char> {
    match last_dot(name) {
        Some(i) => if i == 0 {
            name
        } else {
            name.take(i)
        },
        None => name,
    }
}

/// The extension of a path's file name.
pub open spec fn spec_extension(s: Seq<char>) -> Option<Seq<char>> {
    match spec_file_name(s) {
        Some(n) => name_extension(n),
        None => None,
    }
}

/// The stem of a path's file name.
pub open spec fn spec_file_stem(s: Seq<char>) -> Option<Seq<char>> {
    match spec_file_name(s) {
        Some(n) => Some(name_stem(n)),
        None => None,
    }
}

fn segment_component_exec(seg: &Vec<char>, leading: bool) -> (r: Option<Component>)
    ensures
        match segment_component(seg@, leading) {
            Some(c) => r is Some && r->0@ == c,
            None => r is None,
        },
{
    if seg.len() == 0 {
        None
    } else if seg.len() == 1 && seg[0] == '.' {
        proof {
            assert(seg@ =~= seq!['.']);
        }
        if leading {
            Some(Component::CurDir)
        } else {
            None
        }
    } else if seg.len() == 2 && seg[0] == '.' && seg[1] == '.' {
        proof {
            assert(seg@ =~= seq!['.', '.']);
        }
        Some(Component::ParentDir)
    } else {
        proof {
            if seg@ == seq!['.'] {
                assert(seg@.len() == 1 && seg@[0] == '.');
            }
            if seg@ == seq!['.', '.'] {
                assert(seg@.len() == 2 && seg@[0] == '.' && seg@[1] == '.');
            }
        }
        Some(Component::Normal(seg.clone()))
    }
}

pub open spec fn view_components(v: Seq<Component>) -> Seq<SpecComponent> {
    v.map_values(|c: Component| c@)
}

/// The components of a path, in order.
pub fn path_components(path: &str) -> (r: Vec<Component>)
    ensures
        view_components(r@) == spec_components(path@),
{
    let chars = chars_of(path);
    let n = chars.len();
    let rooted = n > 0 && chars[0] == '/';
    let mut comps: Vec<Component> = Vec::new();
    if rooted {
        comps.push(Component::RootDir);
    }
    let mut cur: Vec<char> = Vec::new();
    let mut completed: usize = 0;
    let ghost s = chars@;
    proof {
        assert(s.take(0) =~= Seq::<char>::empty());
        assert(view_components(comps@) =~= components_of_segments(
            split_slash(s.take(0)).drop_last(),
            rooted,
        ));
    }
    let mut i: usize = 0;
    while i < n
        invariant
            n == s.len(),
            chars@ == s,
            0 <= i <= n,
            rooted == is_rooted(s),
            split_slash(s.take(i as int)).len() == completed + 1,
            split_slash(s.take(i as int)).last() == cur@,
            view_components(comps@) == components_of_segments(
                split_slash(s.take(i as int)).drop_last(),
                rooted,
            ),
            completed <= i,
        decreases n - i,
    {
        let c = chars[i];
        let ghost prev = split_slash(s.take(i as int));
        proof {
            assert(s.take(i + 1).drop_last() =~= s.take(i as int));
        }
        if c == '/' {
            let piece = segment_component_exec(&cur, completed == 0 && !rooted);
            let ghost before = comps@;
            match piece {
                Some(p) => {
                    comps.push(p);
                },
                None => {},
            }
            proof {
                let now = split_slash(s.take(i + 1));
                assert(now == prev.push(Seq::<char>::empty()));
                assert(now.drop_last() =~= prev);
                assert(prev.drop_last() =~= prev.drop_last());
                assert(view_components(comps@) =~= components_of_segments(now.drop_last(), rooted));
            }
            cur = Vec::new();
            completed = completed + 1;
        } else {
            cur.push(c);
            proof {
                let now = split_slash(s.take(i + 1));
                assert(now == prev.update(prev.len() - 1, prev.last().push(c)));
                assert(now.drop_last() =~= prev.drop_last());
            }
        }
        i = i + 1;
    }
    proof {
        assert(s.take(n as int) =~= s);
    }
    let ghost segs = split_slash(s);
    let piece = segment_component_exec(&cur, completed == 0 && !rooted);
    match piece {
        Some(p) => {
            comps.push(p);
        },
        None => {},
    }
    proof {
        assert(segs.drop_last().push(segs.last()) =~= segs);
        assert(view_components(comps@) =~= components_of_segments(segs, rooted));
    }
    comps
}

/// The file name of a path: its last component, when that is a normal one.
pub fn path_file_name(path: &str) -> (r: Option<Vec<char>>)
    ensures
        match spec_file_name(path@) {
            Some(n) => r is Some && r->0@ == n,
            None => r is None,
        },
{
    let comps = path_components(path);
    let k = comps.len();
    if k == 0 {
        return None;
    }
    proof {
        assert(view_components(comps@)[k - 1] == comps@[k - 1]@);
    }
    match &comps[k - 1] {
        Component::Normal(n) => Some(n.clone()),
        _ => None,
    }
}

/// Index of the last `.` of `name`.
fn last_dot_exec(name: &Vec<char>) -> (r: Option<usize>)
    ensures
        match r {
            Some(i) => last_dot(name@) == Some(i as int) && i < name@.len(),
            None => last_dot(name@) is None,
        },
{
    proof {
        assert(name@.take(name@.len() as int) =~= name@);
    }
    let mut k = name.len();
    while k > 0
        invariant
            0 <= k <= name@.len(),
            last_dot(name@.take(k as int)) == last_dot(name@),
        decreases k,
    {
        proof {
            assert(name@.take(k as int).drop_last() =~= name@.take(k - 1));
        }
        if name[k - 1] == '.' {
            return Some(k - 1);
        }
        k = k - 1;
    }
    None
}

/// The extension of a path's file name.
pub fn path_extension(path: &str) -> (r: Option<Vec<char>>)
    ensures
        match spec_extension(path@) {
            Some(e) => r is Some && r->0@ == e,
            None => r is None,
        },
{
    let name = match path_file_name(path) {
        Some(n) => n,
        None => return None,
    };
    let ghost n = name@;
    assert(spec_file_name(path@) == Some(n));
    let len = name.len();
    match last_dot_exec(&name) {
        Some(i) => {
            assert(last_dot(n) == Some(i as int));
            if i == 0 {
                None
            } else {
                let mut ext: Vec<char> = Vec::new();
                let mut j = i + 1;
                while j < len
                    invariant
                        len == n.len(),
                        name@ == n,
                        i < len,
                        i + 1 <= j <= len,
                        ext@ == n.subrange(i + 1, j as int),
                    decreases len - j,
                {
                    ext.push(name[j]);
                    proof {
                        assert(n.subrange(i + 1, j + 1) =~= n.subrange(i + 1, j as int).push(
                            n[j as int],
                        ));
                    }
                    j = j + 1;
                }
                proof {
                    assert(ext@ =~= n.skip(i + 1));
                }
                Some(ext)
            }
        },
        None => None,
    }
}

/// The stem of a path's file name.
pub fn path_file_stem(path: &str) -> (r: Option<Vec<char>>)
    ensures
        match spec_file_stem(path@) {
            Some(e) => r is Some && r->0@ == e,
            None => r is None,
        },
{
    let name = match path_file_name(path) {
        Some(n) => n,
        None => return None,
    };
    let ghost n = name@;
    assert(spec_file_name(path@) == Some(n));
    match last_dot_exec(&name) {
        Some(i) => {
            assert(last_dot(n) == Some(i as int));
            if i == 0 {
                Some(name)
            } else {
                let mut stem: Vec<char> = Vec::new();
                let mut j: usize = 0;
                while j < i
                    invariant
                        name@ == n,
                        i < n.len(),
                        0 <= j <= i,
                        stem@ == n.take(j as int),
                    decreases i - j,
                {
                    stem.push(name[j]);
                    proof {
                        assert(n.take(j + 1) =~= n.take(j as int).push(n[j as int]));
                    }
                    j = j + 1;
                }
                Some(stem)
            }
        },
        None => Some(name),
    }
}

/// The file name of a path as a string, when it has one.
pub fn file_name_string(path: &str) -> (r: Option<String>)
    ensures
        match spec_file_name(path@) {
            Some(n) => r is Some && r->0@ == n,
            None => r is None,
        },
{
    match path_file_name(path) {
        Some(n) => Some(string_of(&n)),
        None => None,
    }
}

/// `dir` joined with a relative path `name`: a `/` is put between them unless
/// `dir` is empty or already ends with one.
pub open spec fn spec_join_relative(dir: Seq<char>, name: Seq<char>) -> Seq<char> {
    if dir.len() > 0 && dir.last() != '/' {
        dir.push('/') + name
    } else {
        dir + name
    }
}

/// Joins a relative path onto a directory.
pub fn join_relative(dir: &str, name: &str) -> (r: String)
    ensures
        r@ == spec_join_relative(dir@, name@),
{
    let mut out = chars_of(dir);
    let n = out.len();
    if n > 0 && out[n - 1] != '/' {
        out.push('/');
    }
    let tail = chars_of(name);
    let ghost head = out@;
    let mut i: usize = 0;
    while i < tail.len()
        invariant
            0 <= i <= tail@.len(),
            out@ == head + tail@.take(i as int),
        decreases tail@.len() - i,
    {
        out.push(tail[i]);
        proof {
            assert(tail@.take(i + 1) =~= tail@.take(i as int).push(tail@[i as int]));
        }
        i = i + 1;
    }
    proof {
        assert(tail@.take(i as int) =~= tail@);
    }
    string_of(&out)
}

} // verus!
