use std::cmp::Ordering;
use std::collections::{BinaryHeap, VecDeque};
use streamchat::hexpath::cheapest::dijkstra_min_cost;
use streamchat::hexpath::dearest::max_cost_among_shortest_paths;
use streamchat::hexpath::grid::{
    format_grid, format_grid_file, generate_grid, neighbors4, validate_grid, Grid,
};
use streamchat::hexpath::paths::reconstruct_path;
use streamchat::hexpath::reader::parse_grid_text;

fn grid(w: usize, h: usize, cells: &[u8]) -> Grid {
    Grid { w, h, cells: cells.to_vec() }
}

fn cost_of(g: &Grid, path: &[(usize, usize)]) -> u64 {
    path.iter().skip(1).map(|&(x, y)| g.at(x, y).unwrap() as u64).sum()
}

fn is_walk(g: &Grid, path: &[(usize, usize)]) -> bool {
    !path.is_empty()
        && path.iter().all(|&(x, y)| x < g.w && y < g.h)
        && path.windows(2).all(|p| neighbors4(p[0].0, p[0].1, g.w, g.h).contains(&p[1]))
}

#[derive(Copy, Clone, Eq, PartialEq)]
struct State {
    cost: u64,
    idx: usize,
}

impl Ord for State {
    fn cmp(&self, other: &Self) -> Ordering {
        other.cost.cmp(&self.cost).then_with(|| other.idx.cmp(&self.idx))
    }
}

impl PartialOrd for State {
    fn partial_cmp(&self, other: &Self) -> Option<Ordering> {
        Some(self.cmp(other))
    }
}

fn chain(prev: &[Option<usize>], w: usize, goal: usize) -> Vec<(usize, usize)> {
    let mut out = Vec::new();
    let mut cur = Some(goal);
    while let Some(i) = cur {
        out.push((i % w, i / w));
        cur = prev[i];
    }
    out.reverse();
    out
}

/// A search with a binary heap that stops at the goal.
fn heap_search(g: &Grid) -> (u64, Vec<(usize, usize)>) {
    let n = g.w * g.h;
    let goal = n - 1;
    let mut dist = vec![u64::MAX; n];
    let mut prev: Vec<Option<usize>> = vec![None; n];
    let mut heap = BinaryHeap::new();
    dist[0] = 0;
    heap.push(State { cost: 0, idx: 0 });
    while let Some(State { cost, idx }) = heap.pop() {
        if cost != dist[idx] {
            continue;
        }
        if idx == goal {
            break;
        }
        for (nx, ny) in neighbors4(idx % g.w, idx / g.w, g.w, g.h) {
            let nidx = ny * g.w + nx;
            let next = cost.saturating_add(g.at(nx, ny).unwrap_or(0) as u64);
            if next < dist[nidx] {
                dist[nidx] = next;
                prev[nidx] = Some(idx);
                heap.push(State { cost: next, idx: nidx });
            }
        }
    }
    (dist[goal], chain(&prev, g.w, goal))
}

/// The dearest shortest walk found layer by layer.
fn layered_search(g: &Grid) -> (u64, Vec<(usize, usize)>) {
    let n = g.w * g.h;
    let goal = n - 1;
    let mut step = vec![i32::MAX; n];
    let mut q = VecDeque::new();
    step[0] = 0;
    q.push_back(0usize);
    while let Some(idx) = q.pop_front() {
        let d = step[idx];
        for (nx, ny) in neighbors4(idx % g.w, idx / g.w, g.w, g.h) {
            let nidx = ny * g.w + nx;
            if step[nidx] == i32::MAX {
                step[nidx] = d + 1;
                q.push_back(nidx);
            }
        }
    }
    let goal_d = step[goal];
    let mut best = vec![i64::MIN; n];
    let mut prev: Vec<Option<usize>> = vec![None; n];
    best[0] = 0;
    let mut layers: Vec<Vec<usize>> = vec![Vec::new(); (goal_d as usize) + 1];
    for (i, &d) in step.iter().enumerate() {
        if d != i32::MAX {
            layers[d as usize].push(i);
        }
    }
    for (d, layer) in layers.iter().enumerate().take(goal_d as usize) {
        for &idx in layer {
            if best[idx] == i64::MIN {
                continue;
            }
            for (nx, ny) in neighbors4(idx % g.w, idx / g.w, g.w, g.h) {
                let nidx = ny * g.w + nx;
                if step[nidx] == (d as i32) + 1 {
                    let cand = best[idx].saturating_add(g.at(nx, ny).unwrap_or(0) as i64);
                    if cand > best[nidx] {
                        best[nidx] = cand;
                        prev[nidx] = Some(idx);
                    }
                }
            }
        }
    }
    (best[goal] as u64, chain(&prev, g.w, goal))
}

/// Every walk without a repeated cell, for small grids.
fn brute_force(g: &Grid) -> (u64, u64, usize) {
    fn go(
        g: &Grid,
        at: (usize, usize),
        seen: &mut Vec<bool>,
        cost: u64,
        cells: usize,
        out: &mut Vec<(u64, usize)>,
    ) {
        if at == (g.w - 1, g.h - 1) {
            out.push((cost, cells));
            return;
        }
        for (nx, ny) in neighbors4(at.0, at.1, g.w, g.h) {
            let i = ny * g.w + nx;
            if !seen[i] {
                seen[i] = true;
                go(g, (nx, ny), seen, cost + g.cells[i] as u64, cells + 1, out);
                seen[i] = false;
            }
        }
    }
    let mut seen = vec![false; g.w * g.h];
    seen[0] = true;
    let mut out = Vec::new();
    go(g, (0, 0), &mut seen, 0, 1, &mut out);
    let cheapest = out.iter().map(|&(c, _)| c).min().unwrap();
    let fewest = out.iter().map(|&(_, n)| n).min().unwrap();
    let dearest = out.iter().filter(|&&(_, n)| n == fewest).map(|&(c, _)| c).max().unwrap();
    (cheapest, dearest, fewest)
}

fn samples() -> Vec<Grid> {
    let mut v = vec![
        grid(2, 1, &[0, 0xFF]),
        grid(1, 2, &[0, 0xFF]),
        grid(2, 2, &[0, 1, 2, 0xFF]),
        grid(2, 2, &[0, 5, 5, 0xFF]),
        grid(3, 3, &[0, 9, 1, 1, 9, 1, 1, 1, 0xFF]),
        grid(3, 3, &[0, 0, 0, 0, 0, 0, 0, 0, 0xFF]),
        grid(4, 3, &[0, 1, 9, 9, 9, 1, 9, 9, 9, 1, 1, 0xFF]),
        // The cheapest way goes back up and round.
        grid(5, 3, &[0, 9, 1, 1, 1, 1, 9, 1, 9, 1, 1, 1, 1, 9, 0xFF]),
        grid(4, 4, &[0, 7, 7, 7, 7, 7, 7, 7, 7, 7, 7, 7, 7, 7, 7, 0xFF]),
    ];
    let mut seed = 12345u32;
    for (w, h) in [(3usize, 2usize), (2, 3), (3, 3), (4, 3), (3, 4), (4, 4)] {
        for _ in 0..6 {
            let mut cells = Vec::new();
            for _ in 0..w * h {
                seed = seed.wrapping_mul(1103515245).wrapping_add(12345);
                // Few distinct values, so that ties are common.
                cells.push(((seed >> 16) % 4) as u8);
            }
            cells[0] = 0;
            cells[w * h - 1] = 0xFF;
            v.push(grid(w, h, &cells));
        }
    }
    v
}

#[test]
fn reconstruct_follows_the_chain() {
    let prev = vec![None, Some(0), Some(1), Some(0), Some(3), Some(4)];
    assert_eq!(reconstruct_path(prev.clone(), 3, 5), vec![(0, 0), (0, 1), (1, 1), (2, 1)]);
    assert_eq!(reconstruct_path(prev.clone(), 3, 2), vec![(0, 0), (1, 0), (2, 0)]);
    assert_eq!(reconstruct_path(prev.clone(), 3, 0), vec![(0, 0)]);
    assert_eq!(reconstruct_path(prev, 2, 5), vec![(0, 0), (1, 1), (0, 2), (1, 2)]);
    assert_eq!(reconstruct_path(vec![None], 1, 0), vec![(0, 0)]);
}

#[test]
fn cheapest_walk_on_a_known_grid() {
    let g = grid(3, 3, &[0, 9, 1, 1, 9, 1, 1, 1, 0xFF]);
    let (cost, path) = dijkstra_min_cost(&g).unwrap();
    assert_eq!(cost, 1 + 1 + 1 + 0xFF);
    assert_eq!(path, vec![(0, 0), (0, 1), (0, 2), (1, 2), (2, 2)]);
}

#[test]
fn cheapest_walk_may_turn_back() {
    let g = grid(5, 3, &[0, 9, 1, 1, 1, 1, 9, 1, 9, 1, 1, 1, 1, 9, 0xFF]);
    let (cost, path) = dijkstra_min_cost(&g).unwrap();
    assert_eq!(cost, 9 + 0xFF);
    assert_eq!(
        path,
        vec![(0, 0), (0, 1), (0, 2), (1, 2), (2, 2), (2, 1), (2, 0), (3, 0), (4, 0), (4, 1), (4, 2)]
    );
}

#[test]
fn cheapest_walk_is_cheapest() {
    for g in samples() {
        assert_eq!(validate_grid(&g), Ok(()));
        let (cost, path) = dijkstra_min_cost(&g).unwrap();
        assert!(is_walk(&g, &path));
        assert_eq!(path[0], (0, 0));
        assert_eq!(*path.last().unwrap(), (g.w - 1, g.h - 1));
        assert_eq!(cost_of(&g, &path), cost);
        assert_eq!(cost, brute_force(&g).0, "{:?}", g);
    }
}

#[test]
fn cheapest_walk_agrees_with_a_heap_search() {
    for g in samples() {
        assert_eq!(dijkstra_min_cost(&g).unwrap(), heap_search(&g), "{:?}", g);
    }
    for (w, h) in [(8usize, 4usize), (10, 10), (17, 5), (1, 9), (9, 1), (32, 32)] {
        for _ in 0..4 {
            let g = generate_grid(w, h);
            assert_eq!(dijkstra_min_cost(&g).unwrap(), heap_search(&g), "{:?}", g);
        }
    }
}

#[test]
fn dearest_shortest_walk_on_a_known_grid() {
    let g = grid(3, 3, &[0, 9, 1, 1, 9, 1, 1, 1, 0xFF]);
    let (cost, path) = max_cost_among_shortest_paths(&g).unwrap();
    assert_eq!(cost, 9 + 9 + 1 + 0xFF);
    assert_eq!(path, vec![(0, 0), (1, 0), (1, 1), (2, 1), (2, 2)]);
}

#[test]
fn dearest_shortest_walk_prefers_coming_from_above() {
    let g = grid(2, 2, &[0, 5, 5, 0xFF]);
    let (cost, path) = max_cost_among_shortest_paths(&g).unwrap();
    assert_eq!(cost, 5 + 0xFF);
    assert_eq!(path, vec![(0, 0), (1, 0), (1, 1)]);
}

#[test]
fn dearest_shortest_walk_is_dearest() {
    for g in samples() {
        let (cost, path) = max_cost_among_shortest_paths(&g).unwrap();
        assert!(is_walk(&g, &path));
        assert_eq!(path[0], (0, 0));
        assert_eq!(*path.last().unwrap(), (g.w - 1, g.h - 1));
        assert_eq!(path.len(), g.w + g.h - 1);
        assert_eq!(cost_of(&g, &path), cost);
        let (_, dearest, fewest) = brute_force(&g);
        assert_eq!(path.len(), fewest);
        assert_eq!(cost, dearest, "{:?}", g);
    }
}

#[test]
fn dearest_shortest_walk_agrees_with_a_layered_search() {
    for g in samples() {
        assert_eq!(max_cost_among_shortest_paths(&g).unwrap(), layered_search(&g), "{:?}", g);
    }
    for (w, h) in [(8usize, 4usize), (10, 10), (17, 5), (1, 9), (9, 1), (32, 32)] {
        for _ in 0..4 {
            let g = generate_grid(w, h);
            assert_eq!(max_cost_among_shortest_paths(&g).unwrap(), layered_search(&g));
        }
    }
}

#[test]
fn walks_across_the_largest_grid() {
    let g = generate_grid(512, 512);
    let (cost, path) = dijkstra_min_cost(&g).unwrap();
    assert_eq!((cost, path), heap_search(&g));
    let (_, path) = max_cost_among_shortest_paths(&g).unwrap();
    assert_eq!(path.len(), 1023);
}

#[test]
fn grid_text_is_read() {
    let g = parse_grid_text("00 1A b2\n03 04 FF\n").unwrap();
    assert_eq!((g.w, g.h), (3, 2));
    assert_eq!(g.cells, vec![0x00, 0x1A, 0xB2, 0x03, 0x04, 0xFF]);
    let g = parse_grid_text("\n\n  0x00, 0X1a;  +F \r\n\r\n\t3 4 ff;;,,,\n   ").unwrap();
    assert_eq!((g.w, g.h), (3, 2));
    assert_eq!(g.cells, vec![0x00, 0x1A, 0x0F, 0x03, 0x04, 0xFF]);
    let g = parse_grid_text("7").unwrap();
    assert_eq!((g.w, g.h, g.cells), (1, 1, vec![7]));
    let g = parse_grid_text("0\u{3000}1\u{a0}2").unwrap();
    assert_eq!((g.w, g.h, g.cells), (3, 1, vec![0, 1, 2]));
}

#[test]
fn grid_text_is_refused() {
    let err = |s: &str| parse_grid_text(s).map(|g| (g.w, g.h, g.cells)).unwrap_err();
    assert_eq!(err(""), "empty map");
    assert_eq!(err(" \n\t\n"), "empty map");
    assert_eq!(err("00 ,"), "empty hex token");
    assert_eq!(err("00 0x"), "empty hex token");
    assert_eq!(err("00 ;;"), "empty hex token");
    assert_eq!(err("00 100"), "invalid hex token '100' (expected 00-FF)");
    assert_eq!(err("00 GG"), "invalid hex token 'GG' (expected 00-FF)");
    assert_eq!(err("00 0xGG,"), "invalid hex token '0xGG,' (expected 00-FF)");
    assert_eq!(err("00 FF,;"), "invalid hex token 'FF,;' (expected 00-FF)");
    assert_eq!(err("00 +"), "invalid hex token '+' (expected 00-FF)");
    assert_eq!(err("00 -1"), "invalid hex token '-1' (expected 00-FF)");
    assert_eq!(err("00 é"), "invalid hex token 'é' (expected 00-FF)");
    assert_eq!(err("00 €"), "invalid hex token '€' (expected 00-FF)");
    assert_eq!(err("00 01\n02"), "non-rectangular map at row 1");
    assert_eq!(err("00\n\n01\n02 03\n04 05 06"), "non-rectangular map at row 2");
    // The first fault in reading order is the one reported.
    assert_eq!(err("00 xx\n01 yy"), "invalid hex token 'xx' (expected 00-FF)");
    assert_eq!(err("00\n01 02\nzz"), "invalid hex token 'zz' (expected 00-FF)");
    let wide = vec!["00"; 513].join(" ");
    assert_eq!(err(&wide), "grid too wide");
    let tall = vec!["00"; 513].join("\n");
    assert_eq!(err(&tall), "grid too large");
    let row = vec!["00"; 512].join(" ");
    let full = vec![row.as_str(); 512].join("\n");
    let g = parse_grid_text(&full).unwrap();
    assert_eq!((g.w, g.h, g.cells.len()), (512, 512, 512 * 512));
    assert_eq!(err(&format!("{wide}\n00")), "grid too wide");
}

#[test]
fn grid_text_round_trip() {
    for (w, h) in [(1usize, 2usize), (8, 4), (10, 10), (3, 50)] {
        let g = generate_grid(w, h);
        let back = parse_grid_text(&format_grid(&g)).unwrap();
        assert_eq!((back.w, back.h, &back.cells), (g.w, g.h, &g.cells));
        let back = parse_grid_text(&format_grid_file(&g)).unwrap();
        assert_eq!((back.w, back.h, &back.cells), (g.w, g.h, &g.cells));
    }
}

#[test]
fn cells_that_are_not_stored_cost_nothing() {
    // Only the first row of this grid is stored.
    let g = grid(3, 2, &[0, 9, 9]);
    let (cost, path) = dijkstra_min_cost(&g).unwrap();
    assert_eq!(cost, 0);
    assert_eq!(path, vec![(0, 0), (0, 1), (1, 1), (2, 1)]);
    assert_eq!(dijkstra_min_cost(&g).unwrap(), heap_search(&g));
    let (cost, path) = max_cost_among_shortest_paths(&g).unwrap();
    assert_eq!(cost, 18);
    assert_eq!(path, vec![(0, 0), (1, 0), (2, 0), (2, 1)]);
    assert_eq!(max_cost_among_shortest_paths(&g).unwrap(), layered_search(&g));
}

#[test]
fn walks_need_no_marked_ends() {
    let g = grid(2, 2, &[7, 1, 2, 3]);
    assert_eq!(dijkstra_min_cost(&g).unwrap(), (4, vec![(0, 0), (1, 0), (1, 1)]));
    assert_eq!(
        max_cost_among_shortest_paths(&g).unwrap(),
        (5, vec![(0, 0), (0, 1), (1, 1)])
    );
    let single = grid(1, 1, &[9]);
    assert_eq!(dijkstra_min_cost(&single).unwrap(), (0, vec![(0, 0)]));
    assert_eq!(max_cost_among_shortest_paths(&single).unwrap(), (0, vec![(0, 0)]));
}
