use std::collections::VecDeque;

use herb_garden::compressed::CompressedSearch;
use herb_garden::direct::{DirectSearch, SearchResult};
use herb_garden::garden::{Cell, Garden};
use herb_garden::graph::GraphBuilder;

fn parsed(text: &str) -> Garden {
    match Garden::parse(text) {
        Ok(g) => g,
        Err(e) => panic!("refused: {:?}", e),
    }
}

fn run_direct(g: Garden) -> Option<usize> {
    let mut s = DirectSearch::new(g);
    loop {
        match s.step() {
            SearchResult::Found(d) => return Some(d),
            SearchResult::Finished => return None,
            SearchResult::Continue => {}
        }
    }
}

fn build(g: Garden) -> GraphBuilder {
    let mut b = GraphBuilder::new(g);
    while b.step() != SearchResult::Finished {}
    b
}

fn run_compressed(g: Garden) -> Option<usize> {
    let mask = g.herb_types;
    let b = build(g);
    let mut s = CompressedSearch::new(b.graph, mask);
    loop {
        match s.step() {
            SearchResult::Found(d) => return Some(d),
            SearchResult::Finished => return None,
            SearchResult::Continue => {}
        }
    }
}

const SMALL: &str = "#####.#####
#.........#
#.######.##
#.........#
###.#.#####
#H.......H#
###########
";

const LARGER: &str = "##########.##########
#...................#
#.###.##.###.##.#.#.#
#..A#.#..~~~....#A#.#
#.#...#.~~~~~...#.#.#
#.#.#.#.~~~~~.#.#.#.#
#...#.#.B~~~B.#.#...#
#...#....BBB..#....##
#C............#....C#
#####################
";

fn three_by_three() -> Garden {
    Garden {
        grid: vec![
            vec![Cell::Open, Cell::Open, Cell::Open],
            vec![Cell::Open, Cell::Open, Cell::Open],
            vec![Cell::Open, Cell::Herb(0), Cell::Open],
        ],
        herb_types: 1,
        start: (0, 1),
        size: (3, 3),
    }
}

#[test]
fn open_three_by_three_takes_four_steps() {
    assert_eq!(run_direct(three_by_three()), Some(4));
    assert_eq!(run_compressed(three_by_three()), Some(4));
}

#[test]
fn no_herbs_means_distance_zero() {
    assert_eq!(run_direct(parsed("#.#\n#.#")), Some(0));
    assert_eq!(run_compressed(parsed("#.#\n#.#")), Some(0));
}

#[test]
fn first_step_without_herbs_is_found_zero() {
    let mut s = DirectSearch::new(parsed("#.#\n#.#"));
    assert_eq!(s.step(), SearchResult::Found(0));
}

#[test]
fn walled_off_herb_is_unreachable_for_both() {
    let text = "#.#\n#.#\n###\n#A#";
    assert_eq!(run_direct(parsed(text)), None);
    assert_eq!(run_compressed(parsed(text)), None);
}

#[test]
fn engines_agree_on_small_garden() {
    assert_eq!(run_direct(parsed(SMALL)), Some(26));
    assert_eq!(run_compressed(parsed(SMALL)), Some(26));
}

#[test]
fn engines_agree_on_larger_garden() {
    assert_eq!(run_direct(parsed(LARGER)), Some(38));
    assert_eq!(run_compressed(parsed(LARGER)), Some(38));
}

#[test]
fn engines_agree_on_two_letters_in_a_row() {
    let text = "#.###\n#...#\n#A#B#\n#####";
    let d = run_direct(parsed(text));
    assert_eq!(d, Some(10));
    assert_eq!(run_compressed(parsed(text)), d);
}

#[test]
fn direct_search_labels_never_decrease() {
    let mut s = DirectSearch::new(parsed(SMALL));
    let mut last = 0usize;
    loop {
        let r = s.step();
        assert!(s.last_label >= last);
        last = s.last_label;
        if r != SearchResult::Continue {
            break;
        }
    }
    assert_eq!(last, 26);
}

#[test]
fn compressed_costs_never_decrease() {
    let g = parsed(LARGER);
    let mask = g.herb_types;
    let b = build(g);
    let mut s = CompressedSearch::new(b.graph, mask);
    let mut last = 0usize;
    loop {
        let r = s.step();
        assert!(s.last_cost >= last);
        last = s.last_cost;
        if r != SearchResult::Continue {
            break;
        }
    }
    assert_eq!(last, 38);
}

fn plain_distance(g: &Garden, from: (i64, i64), to: (i64, i64)) -> Option<usize> {
    let mut seen = vec![vec![false; g.size.1]; g.size.0];
    let mut queue = VecDeque::new();
    queue.push_back((0usize, from));
    seen[from.0 as usize][from.1 as usize] = true;
    while let Some((d, p)) = queue.pop_front() {
        if p == to {
            return Some(d);
        }
        for (dr, dc) in [(-1i64, 0i64), (1, 0), (0, -1), (0, 1)] {
            let (r, c) = (p.0 + dr, p.1 + dc);
            if r < 0 || c < 0 || r >= g.size.0 as i64 || c >= g.size.1 as i64 {
                continue;
            }
            if g.grid[r as usize][c as usize] == Cell::Blocked || seen[r as usize][c as usize] {
                continue;
            }
            seen[r as usize][c as usize] = true;
            queue.push_back((d + 1, (r, c)));
        }
    }
    None
}

#[test]
fn edge_weights_are_shortest_plain_distances() {
    let b = build(parsed(LARGER));
    let mut count = 0;
    for (u, list) in b.graph.edges.iter().enumerate() {
        for &(w, v) in list {
            let d = plain_distance(&b.garden, b.graph.nodes[u], b.graph.nodes[v]);
            assert_eq!(Some(w), d);
            assert_ne!(b.graph.kinds[u], b.graph.kinds[v]);
            count += 1;
        }
    }
    assert!(count > 0);
}

#[test]
fn graph_has_a_node_per_herb_and_one_for_the_entry() {
    let b = build(parsed(SMALL));
    assert_eq!(b.graph.nodes.len(), 3);
    assert_eq!(b.graph.nodes[b.graph.entry], (0, 5));
    assert_eq!(b.graph.kinds[b.graph.entry], None);
    assert_eq!(b.graph.edges[b.graph.entry].len(), 2);
    for &(w, v) in &b.graph.edges[b.graph.entry] {
        assert_eq!(b.graph.kinds[v], Some(7));
        assert_eq!(Some(w), plain_distance(&b.garden, (0, 5), b.graph.nodes[v]));
    }
}

#[test]
fn found_goal_is_taken_off_the_queue() {
    let mut s = DirectSearch::new(three_by_three());
    let mut found = None;
    for _ in 0..1000 {
        let before = s.queue.len();
        if let SearchResult::Found(d) = s.step() {
            assert_eq!(s.queue.len(), before - 1);
            found = Some(d);
            break;
        }
    }
    assert_eq!(found, Some(4));
    assert_eq!(s.last_label, 4);
    let mut c = CompressedSearch::new(build(three_by_three()).graph, 1);
    loop {
        let before = c.frontier.len();
        match c.step() {
            SearchResult::Found(d) => {
                assert_eq!(d, 4);
                assert_eq!(c.frontier.len(), before - 1);
                break;
            }
            SearchResult::Finished => panic!("no route"),
            SearchResult::Continue => {}
        }
    }
}

#[test]
fn finished_search_stays_finished() {
    let mut s = DirectSearch::new(parsed("#.#\n#.#\n###\n#A#"));
    while s.step() != SearchResult::Finished {}
    assert_eq!(s.step(), SearchResult::Finished);
    let g = parsed("#.#\n#.#\n###\n#A#");
    let mask = g.herb_types;
    let mut c = CompressedSearch::new(build(g).graph, mask);
    while c.step() != SearchResult::Finished {}
    assert_eq!(c.step(), SearchResult::Finished);
}

#[test]
fn builder_sweeps_every_node_then_finishes() {
    let mut b = GraphBuilder::new(parsed(SMALL));
    let mut steps = 0usize;
    while b.step() != SearchResult::Finished {
        steps += 1;
    }
    assert_eq!(b.next, b.graph.nodes.len());
    assert!(steps > 0);
    assert_eq!(b.step(), SearchResult::Finished);
}

#[test]
fn three_by_three_graph_has_one_edge_each_way() {
    let b = build(three_by_three());
    assert_eq!(b.graph.nodes.len(), 2);
    let entry = b.graph.entry;
    let herb = 1 - entry;
    assert_eq!(b.graph.nodes[entry], (0, 1));
    assert_eq!(b.graph.nodes[herb], (2, 1));
    assert_eq!(b.graph.kinds[herb], Some(0));
    assert_eq!(b.graph.edges[entry], vec![(2, herb)]);
    assert_eq!(b.graph.edges[herb], vec![(2, entry)]);
}
