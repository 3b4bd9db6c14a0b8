use std::path::PathBuf;

use word_displayer::graph::Graph;
use word_displayer::note::parse_one;
use word_displayer::view::{
    cluster_slot, compute_selection, initial_week_range, isolated_count, keep_ordered, last_weeks,
    local_edges, name_holds, remap_week_range, search_hit, search_key, Scope,
};
use word_displayer::week::Week;

fn week(year: u16, week: u8) -> Week {
    Week { year, week }
}

#[test]
fn reload_preserves_selected_week_labels() {
    let old = [week(2026, 2), week(2026, 3), week(2026, 4), week(2026, 5)];
    let new = [
        week(2026, 1),
        week(2026, 2),
        week(2026, 3),
        week(2026, 4),
        week(2026, 5),
        week(2026, 6),
    ];

    assert_eq!(remap_week_range(&old, 1, 2, &new), (2, 3));
}

#[test]
fn reload_uses_nearest_weeks_when_old_boundaries_were_removed() {
    let old = [week(2026, 2), week(2026, 3), week(2026, 4), week(2026, 5)];
    let new = [week(2026, 1), week(2026, 2), week(2026, 5), week(2026, 6)];

    assert_eq!(remap_week_range(&old, 1, 2, &new), (1, 2));
}

#[test]
fn remap_edges() {
    let old = [week(2026, 2), week(2026, 3)];
    // nothing to map onto
    assert_eq!(remap_week_range(&old, 0, 1, &[]), (0, 0));
    // an old range that does not fit the old list: the last four weeks
    let new: Vec<Week> = (1..=6).map(|w| week(2026, w)).collect();
    assert_eq!(remap_week_range(&old, 0, 5, &new), (2, 5));
    assert_eq!(remap_week_range(&old, 0, 1, &new[..2]), (1, 1));
    // beyond either end of the new list
    let new = [week(2026, 10), week(2026, 20)];
    assert_eq!(remap_week_range(&[week(2025, 1), week(2027, 1)], 0, 1, &new), (0, 1));
    // across a year boundary, week 52 of 2025 is nearer to week 1 of 2026
    let new = [week(2025, 40), week(2026, 1)];
    assert_eq!(remap_week_range(&[week(2025, 52)], 0, 0, &new), (1, 1));
    // a tie goes to the earlier week
    let new = [week(2026, 2), week(2026, 4)];
    assert_eq!(remap_week_range(&[week(2026, 3)], 0, 0, &new), (0, 0));
}

#[test]
fn range_rules() {
    assert_eq!(initial_week_range(0), (0, 0));
    assert_eq!(initial_week_range(2), (0, 1));
    assert_eq!(initial_week_range(10), (6, 9));
    assert_eq!(last_weeks(10, 1), (9, 9));
    assert_eq!(last_weeks(10, 4), (6, 9));
    assert_eq!(last_weeks(3, 12), (0, 2));
    assert_eq!(keep_ordered(5, 2), (5, 5));
    assert_eq!(keep_ordered(2, 5), (2, 5));
    assert_eq!(cluster_slot(0), 0);
    assert_eq!(cluster_slot(7), 1);
    assert_eq!(cluster_slot(u32::MAX), (u32::MAX % 6) as usize);
}

fn note(name: &str, text: &str) -> word_displayer::note::Parsed {
    parse_one(name.into(), PathBuf::from(format!("{name}.md")), text)
}

/// a -- b -- c -- d, e alone; a and e were edited in week 1, d in week 2.
fn chain() -> Graph {
    Graph::from_notes(vec![
        note("a", "---\nt: 2026-W01\n---\n[[b]]\n"),
        note("b", "[[c]]\n"),
        note("c", "[[d]]\n"),
        note("d", "---\nt: 2026-W02\n---\n"),
        note("e", "---\nt: 2026-W01\n---\n"),
    ])
}

fn scope(week_lo: usize, week_hi: usize, hops: usize, hide_isolated: bool, focus: Option<u32>) -> Scope {
    Scope { week_lo, week_hi, hops, hide_isolated, focus }
}

#[test]
fn selection_follows_links_for_the_given_hops() {
    let g = chain();
    assert_eq!(compute_selection(&g, &scope(0, 0, 0, false, None)), vec![0, 4]);
    assert_eq!(compute_selection(&g, &scope(0, 0, 1, false, None)), vec![0, 1, 4]);
    assert_eq!(compute_selection(&g, &scope(0, 0, 2, false, None)), vec![0, 1, 2, 4]);
    assert_eq!(compute_selection(&g, &scope(0, 0, 9, false, None)), vec![0, 1, 2, 3, 4]);
    assert_eq!(compute_selection(&g, &scope(0, 1, 0, false, None)), vec![0, 3, 4]);
}

#[test]
fn hidden_isolated_words_need_a_shown_neighbour() {
    let g = chain();
    // a alone has no shown neighbour at zero hops, e never has one
    assert_eq!(compute_selection(&g, &scope(0, 0, 0, true, None)), Vec::<u32>::new());
    assert_eq!(compute_selection(&g, &scope(0, 0, 1, true, None)), vec![0, 1]);
    assert_eq!(isolated_count(&g, &scope(0, 0, 1, true, None)), 1);
    assert_eq!(isolated_count(&g, &scope(0, 0, 1, false, None)), 0);
    assert_eq!(isolated_count(&g, &scope(0, 0, 1, true, Some(0))), 0);
}

#[test]
fn focus_replaces_the_week_range() {
    let g = chain();
    assert_eq!(compute_selection(&g, &scope(0, 0, 1, false, Some(2))), vec![1, 2, 3]);
    assert_eq!(compute_selection(&g, &scope(0, 0, 0, false, Some(4))), vec![4]);
    assert_eq!(compute_selection(&g, &scope(0, 0, 0, true, Some(4))), Vec::<u32>::new());
}

#[test]
fn local_edges_are_numbered_by_position() {
    let g = chain();
    let ids = vec![1, 2, 3];
    assert_eq!(local_edges(&g, &ids), vec![(0, 1), (1, 2)]);
    let ids = vec![0, 2, 4];
    assert_eq!(local_edges(&g, &ids), Vec::<(u32, u32)>::new());
}

#[test]
fn search_finds_names_then_substrings() {
    let g = Graph::from_notes(vec![note("Oyster", ""), note("shellfish", ""), note("fish", "")]);
    assert_eq!(search_hit(&g, "  OYSTER "), Some(0));
    assert_eq!(search_hit(&g, "fish"), Some(2));
    assert_eq!(search_hit(&g, "ELLF"), Some(1));
    assert_eq!(search_hit(&g, "ys"), Some(0));
    assert_eq!(search_hit(&g, "   "), None);
    assert_eq!(search_hit(&g, "clam"), None);
}

#[test]
fn search_marks_names_holding_the_query() {
    let key = search_key("  PeA ");
    assert_eq!(key, "pea");
    assert!(name_holds("Pear", &key));
    assert!(name_holds("SPEAK", &key));
    assert!(!name_holds("apple", &key));
    assert!(!name_holds("anything", &search_key("   ")));
}
