use std::path::PathBuf;

use word_displayer::components::{component_groups, component_numbers};
use word_displayer::graph::{component_counts, neighbor_lists, neighbors_by_name, sorted_desc, week_counts, Graph};
use word_displayer::note::{is_note_extension, parse_links, parse_one, parse_tags, split_frontmatter};
use word_displayer::week::{parse_weeks, Week};

fn chars(s: &str) -> Vec<char> {
    s.chars().collect()
}

fn text(cs: &[char]) -> String {
    cs.iter().collect()
}

#[test]
fn parses_a_typical_note() {
    let text = "---\nid: abalone\naliases: []\ntags:\n  - modified/2026-W02\n  - modified/2025-W51\n---\n# abalone\n[[oyster]]\n[[shellfish|贝类]]\n";
    let p = parse_one("abalone".into(), PathBuf::new(), text);
    assert_eq!(
        p.weeks,
        vec![Week { year: 2025, week: 51 }, Week { year: 2026, week: 2 }]
    );
    assert_eq!(p.links, vec!["oyster".to_string(), "shellfish".to_string()]);
}

#[test]
fn note_without_frontmatter_still_yields_links() {
    let p = parse_one("x".into(), PathBuf::new(), "# x\n[[y]]\n");
    assert!(p.weeks.is_empty());
    assert_eq!(p.links, vec!["y".to_string()]);
}

#[test]
fn parses_tags_and_drops_modified() {
    let text = "---\naliases: []\ntags:\n  - academic\n  - modified/2025-W52\n  - Paper\n  - modified/2026-W01\n---\nbody\n";
    let p = parse_one("Academic".into(), PathBuf::new(), text);
    assert_eq!(p.tags, vec!["Paper".to_string(), "academic".to_string()]);
    assert_eq!(p.weeks.len(), 2);
}

#[test]
fn tag_index_attaches_to_the_right_note() {
    let a = parse_one(
        "A".into(),
        PathBuf::from("A.md"),
        "---\ntags:\n  - academic\n  - modified/2025-W01\n---\n[[B]]\n",
    );
    let b = parse_one(
        "B".into(),
        PathBuf::from("B.md"),
        "---\ntags:\n  - modified/2025-W01\n---\nplain\n",
    );
    let g = Graph::from_notes(vec![a, b]);
    let acad = g.tags.iter().position(|t| t == "academic").unwrap() as u16;
    let a = g.find("A").unwrap() as usize;
    let b = g.find("B").unwrap() as usize;
    assert!(g.nodes[a].tags.contains(&acad));
    assert!(!g.nodes[b].tags.contains(&acad));
}

#[test]
fn week_label_is_padded() {
    assert_eq!(Week { year: 2026, week: 2 }.label(), "2026-W02");
    assert_eq!(Week { year: 2025, week: 51 }.label(), "2025-W51");
}

#[test]
fn week_label_reads_back() {
    for w in [
        Week { year: 1901, week: 1 },
        Week { year: 2026, week: 9 },
        Week { year: 2026, week: 10 },
        Week { year: 9999, week: 53 },
    ] {
        assert_eq!(parse_weeks(&chars(&w.label())), vec![w]);
    }
}

#[test]
fn week_tags_need_a_plausible_year_and_week() {
    let front = chars("a: 1900-W05\nb: 2026-W00\nc: 2026-W54\nd: 2026-w07\ne: 2026-W3x\n");
    assert_eq!(
        parse_weeks(&front),
        vec![Week { year: 2026, week: 3 }, Week { year: 2026, week: 7 }]
    );
    // a one-digit week is accepted anywhere, also at the very end
    assert_eq!(parse_weeks(&chars("2026-W7")), vec![Week { year: 2026, week: 7 }]);
    assert_eq!(parse_weeks(&chars("2026-W7\n")), vec![Week { year: 2026, week: 7 }]);
    assert_eq!(
        parse_weeks(&chars("tags:\n  - modified/2025-w3")),
        vec![Week { year: 2025, week: 3 }]
    );
    assert!(parse_weeks(&chars("2026-W")).is_empty());
    // repeats are kept once, in time order
    assert_eq!(
        parse_weeks(&chars("2026-W02 2025-W40 2026-W02 ")),
        vec![Week { year: 2025, week: 40 }, Week { year: 2026, week: 2 }]
    );
}

#[test]
fn frontmatter_split_handles_bom_crlf_and_missing_end() {
    let (front, body) = split_frontmatter(&chars("\u{feff}---\r\nk: v\r\n---\r\nbody"));
    assert_eq!(text(&front), "k: v\r\n");
    assert_eq!(text(&body), "body");
    // the closing line may carry trailing blanks
    let (front, body) = split_frontmatter(&chars("---\na\n---  \nrest\n"));
    assert_eq!(text(&front), "a\n");
    assert_eq!(text(&body), "rest\n");
    // no closing line: no frontmatter, the whole text is body
    let (front, body) = split_frontmatter(&chars("---\na: b\n"));
    assert!(front.is_empty());
    assert_eq!(text(&body), "---\na: b\n");
    // no opening line
    let (front, body) = split_frontmatter(&chars("\u{feff}# t\n"));
    assert!(front.is_empty());
    assert_eq!(text(&body), "# t\n");
}

#[test]
fn tags_are_trimmed_unquoted_and_sorted() {
    let front = chars("tags:\n  - \"b\"\n  - 'a'\n  -  \n  - modified/2026-W01\n-x\n  - b\n");
    assert_eq!(parse_tags(&front), vec!["a".to_string(), "b".to_string()]);
}

#[test]
fn links_take_the_target_before_alias_or_section() {
    let body = chars("[[b|B]] [[a#part]] [[  ]] [[c\nd]] [[ a ]] [[unclosed");
    assert_eq!(parse_links(&body), vec!["a".to_string(), "b".to_string()]);
}

#[test]
fn note_extensions() {
    assert!(is_note_extension("md"));
    assert!(is_note_extension("MD"));
    assert!(is_note_extension("mD"));
    assert!(!is_note_extension("mdx"));
    assert!(!is_note_extension("txt"));
}

fn note(name: &str, text: &str) -> word_displayer::note::Parsed {
    parse_one(name.into(), PathBuf::from(format!("{name}.md")), text)
}

#[test]
fn graph_resolves_links_ignoring_case_and_counts_dangling_ones() {
    let g = Graph::from_notes(vec![
        note("Apple", "---\ntags:\n  - modified/2026-W02\n---\n[[banana]] [[BANANA|b]] [[cherry]] [[apple]]\n"),
        note("Banana", "---\ntags:\n  - modified/2026-W01\n---\n[[Apple]]\n"),
        note("Date", "nothing\n"),
    ]);
    assert_eq!(g.nodes.len(), 3);
    // one undirected edge, however many times and ways it is linked
    assert_eq!(g.edges, vec![(0, 1)]);
    assert_eq!(g.dangling_links, 1);
    assert_eq!(g.nodes[0].neighbors, vec![1]);
    assert_eq!(g.nodes[1].neighbors, vec![0]);
    assert!(g.nodes[2].neighbors.is_empty());
    assert_eq!(g.find("APPLE"), Some(0));
    assert_eq!(g.find("banana"), Some(1));
    assert_eq!(g.find("cherry"), None);
    assert_eq!(
        g.weeks,
        vec![Week { year: 2026, week: 1 }, Week { year: 2026, week: 2 }]
    );
    assert_eq!(g.nodes[0].weeks, vec![1]);
    assert_eq!(g.nodes[1].weeks, vec![0]);
    assert_eq!(g.nodes[0].last_week(), Some(1));
    assert_eq!(g.nodes[2].last_week(), None);
    assert_eq!(g.nodes[0].degree(), 1);
}

#[test]
fn first_note_of_a_name_wins() {
    let g = Graph::from_notes(vec![note("Word", "[[x]]\n"), note("word", ""), note("x", "")]);
    assert_eq!(g.find("WORD"), Some(0));
    assert_eq!(g.edges, vec![(0, 2)]);
}

#[test]
fn components_are_numbered_largest_first() {
    // 0-1, 2-3-4, 5 alone
    let g = Graph::from_notes(vec![
        note("a", "[[b]]"),
        note("b", ""),
        note("c", "[[d]]"),
        note("d", "[[e]]"),
        note("e", ""),
        note("f", ""),
    ]);
    let comps: Vec<u32> = g.nodes.iter().map(|n| n.component).collect();
    assert_eq!(comps, vec![1, 1, 0, 0, 0, 2]);
}

#[test]
fn component_ties_go_by_smallest_node() {
    let adj = vec![vec![1], vec![0], vec![3], vec![2], vec![]];
    assert_eq!(component_numbers(&adj), vec![0, 0, 1, 1, 2]);
}

#[test]
fn empty_graph() {
    let g = Graph::default();
    assert!(g.nodes.is_empty() && g.edges.is_empty() && g.weeks.is_empty());
    assert_eq!(g.find("x"), None);
}

#[test]
fn component_groups_list_members_by_number() {
    // 0-3, 1-2-4, 5 alone
    let adj = vec![vec![3], vec![2], vec![1, 4], vec![0], vec![2], vec![]];
    let (numbers, groups) = component_groups(&adj);
    assert_eq!(numbers, vec![1, 0, 0, 1, 0, 2]);
    assert_eq!(groups, vec![vec![1, 2, 4], vec![0, 3], vec![5]]);
    let (numbers, groups) = component_groups(&Vec::new());
    assert!(numbers.is_empty() && groups.is_empty());
    // members come in depth-first order from the smallest node
    let star = vec![vec![1, 2, 3], vec![0], vec![0], vec![0]];
    let (numbers, groups) = component_groups(&star);
    assert_eq!(numbers, vec![0, 0, 0, 0]);
    assert_eq!(groups, vec![vec![0, 3, 2, 1]]);
}

#[test]
fn neighbour_lists_from_edges() {
    assert_eq!(
        neighbor_lists(4, &vec![(0, 2), (1, 2), (2, 3)]),
        vec![vec![2], vec![2], vec![0, 1, 3], vec![2]]
    );
}

#[test]
fn library_statistics() {
    let g = Graph::from_notes(vec![
        note("a", "---\nt: 2026-W01 2026-W02\n---\n[[b]]"),
        note("b", "---\nt: 2026-W02\n---\n"),
        note("c", "---\nt: 2026-W02\n---\n"),
    ]);
    assert_eq!(week_counts(&g), vec![1, 3]);
    assert_eq!(component_counts(&g), vec![(0, 2), (1, 1)]);
    assert_eq!(sorted_desc(vec![1, 5, 3, 5, 0]), vec![5, 5, 3, 1, 0]);
    assert_eq!(sorted_desc(Vec::new()), Vec::<usize>::new());
}

#[test]
fn neighbours_are_listed_by_name_ignoring_case() {
    let g = Graph::from_notes(vec![
        note("hub", "[[pear]] [[Apple]] [[apple2]] [[Banana]]\n"),
        note("pear", ""),
        note("apple", ""),
        note("banana", ""),
        note("APPLE2", ""),
    ]);
    let names: Vec<&str> = neighbors_by_name(&g, 0)
        .into_iter()
        .map(|n| g.nodes[n as usize].name.as_str())
        .collect();
    assert_eq!(names, vec!["apple", "APPLE2", "banana", "pear"]);
    assert!(neighbors_by_name(&g, 1).len() == 1);
}

#[test]
fn degrees_add_up_to_twice_the_edges() {
    let g = Graph::from_notes(vec![
        note("a", "[[b]] [[c]] [[d]]\n"),
        note("b", "[[c]] [[a]]\n"),
        note("c", ""),
        note("d", "[[nowhere]]\n"),
        note("e", ""),
    ]);
    let total: usize = g.nodes.iter().map(|n| n.degree()).sum();
    assert_eq!(g.edges.len(), 4);
    assert_eq!(total, 2 * g.edges.len());
}

#[test]
fn word_indices_lead_back_to_the_note() {
    let notes = vec![
        note("a", "---\ntags:\n  - Zoo\n  - modified/2026-W03\n  - bird\n---\n"),
        note("b", "---\ntags:\n  - modified/2025-W50\n  - zoo\n  - modified/2026-W03\n---\n"),
    ];
    let wanted: Vec<(Vec<Week>, Vec<String>)> =
        notes.iter().map(|p| (p.weeks.clone(), p.tags.clone())).collect();
    let g = Graph::from_notes(notes);
    for (i, (weeks, tags)) in wanted.into_iter().enumerate() {
        let mut back_w: Vec<Week> = g.nodes[i].weeks.iter().map(|&w| g.weeks[w as usize]).collect();
        back_w.sort();
        let mut want_w = weeks;
        want_w.sort();
        assert_eq!(back_w, want_w);
        let mut back_t: Vec<String> = g.nodes[i].tags.iter().map(|&t| g.tags[t as usize].clone()).collect();
        back_t.sort();
        let mut want_t = tags;
        want_t.sort();
        assert_eq!(back_t, want_t);
    }
}
