use grepgrep::tags::{time_order_key, TimelineTags};

fn times_of(tags: &TimelineTags) -> Vec<f64> {
    tags.list().iter().map(|tag| f64::from_bits(tag.time_bits)).collect()
}

fn add_at(tags: &mut TimelineTags, seconds: f64) -> u64 {
    tags.add(seconds.to_bits(), (seconds * 1000.0) as u64)
}

#[test]
fn timeline_tags_are_inserted_in_time_order() {
    let mut tags = TimelineTags::new();
    add_at(&mut tags, 8.0);
    add_at(&mut tags, 2.0);
    add_at(&mut tags, 5.0);

    assert_eq!(times_of(&tags), vec![2.0, 5.0, 8.0]);
}

#[test]
fn finishing_tag_edit_uses_new_name() {
    let mut tags = TimelineTags::new();
    let tag_id = add_at(&mut tags, 3.5);

    tags.begin_edit(tag_id);
    tags.set_editor_text("Verse In".to_string());
    tags.finish_edit(true);

    assert_eq!(tags.find(tag_id).expect("tag should still exist").name, "Verse In");
    assert_eq!(tags.editing_id(), None);
}

#[test]
fn new_tags_get_default_names_and_increasing_ids() {
    let mut tags = TimelineTags::new();
    assert_eq!(tags.next_id(), 1);
    let first = add_at(&mut tags, 1.0);
    let second = add_at(&mut tags, 0.5);
    assert_eq!(first, 1);
    assert_eq!(second, 2);
    assert_eq!(tags.next_id(), 3);
    assert_eq!(tags.find(1).unwrap().name, "Tag 1");
    assert_eq!(tags.find(2).unwrap().name, "Tag 2");
    assert!(tags.find(3).is_none());
}

#[test]
fn tags_at_equal_times_keep_insertion_order() {
    let mut tags = TimelineTags::new();
    let a = add_at(&mut tags, 4.0);
    let b = add_at(&mut tags, 4.0);
    let c = add_at(&mut tags, 1.0);
    let ids: Vec<u64> = tags.list().iter().map(|t| t.id).collect();
    assert_eq!(ids, vec![c, a, b]);
}

#[test]
fn negative_and_positive_times_follow_total_order() {
    let mut tags = TimelineTags::new();
    add_at(&mut tags, 0.0);
    add_at(&mut tags, -0.0);
    add_at(&mut tags, -2.0);
    add_at(&mut tags, 3.0);
    let times = times_of(&tags);
    let bits: Vec<u64> = times.iter().map(|t| t.to_bits()).collect();
    assert_eq!(bits, vec![(-2.0f64).to_bits(), (-0.0f64).to_bits(), 0.0f64.to_bits(), 3.0f64.to_bits()]);
}

#[test]
fn order_key_matches_total_cmp() {
    let values = [-3.5f64, -1.0, -0.0, 0.0, 1e-300, 2.0, 7.25, f64::INFINITY];
    for x in values.iter() {
        for y in values.iter() {
            let by_key = time_order_key(x.to_bits()).cmp(&time_order_key(y.to_bits()));
            assert_eq!(by_key, x.total_cmp(y));
        }
    }
}

#[test]
fn blank_edit_names_tag_by_its_time() {
    let mut tags = TimelineTags::new();
    let id = add_at(&mut tags, 83.25);
    tags.begin_edit(id);
    assert_eq!(tags.editor_text(), "Tag 1");
    assert!(tags.editor_needs_focus());
    tags.focus_granted();
    assert!(!tags.editor_needs_focus());
    tags.set_editor_text("   \t ".to_string());
    tags.finish_edit(true);
    assert_eq!(tags.find(id).unwrap().name, "01:23.250");
    assert_eq!(tags.editor_text(), "");
}

#[test]
fn edit_name_is_trimmed() {
    let mut tags = TimelineTags::new();
    let id = add_at(&mut tags, 1.0);
    tags.begin_edit(id);
    tags.set_editor_text("  Chorus \n".to_string());
    tags.finish_edit(true);
    assert_eq!(tags.find(id).unwrap().name, "Chorus");
}

#[test]
fn cancelled_edit_keeps_name() {
    let mut tags = TimelineTags::new();
    let id = add_at(&mut tags, 1.0);
    tags.begin_edit(id);
    tags.set_editor_text("Other".to_string());
    tags.finish_edit(false);
    assert_eq!(tags.find(id).unwrap().name, "Tag 1");
    assert_eq!(tags.editing_id(), None);
    assert_eq!(tags.editor_text(), "");
}

#[test]
fn editing_unknown_tag_changes_nothing() {
    let mut tags = TimelineTags::new();
    add_at(&mut tags, 1.0);
    tags.begin_edit(42);
    assert_eq!(tags.editing_id(), None);
    assert!(!tags.editor_needs_focus());
}

#[test]
fn insert_named_keeps_given_name() {
    let mut tags = TimelineTags::new();
    let id = tags.insert_named(2.0f64.to_bits(), 2000, "Bridge".to_string());
    assert_eq!(tags.find(id).unwrap().name, "Bridge");
    assert_eq!(tags.find(id).unwrap().time_ms, 2000);
}
