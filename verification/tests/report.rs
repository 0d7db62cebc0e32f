use std::collections::VecDeque;
use streamchat::hexpath::grid::{neighbors4, Grid};
use streamchat::hexpath::report::{light_animation, path_report, visualization};

fn grid(w: usize, h: usize, cells: &[u8]) -> Grid {
    Grid { w, h, cells: cells.to_vec() }
}

#[test]
fn report_on_a_walk() {
    let g = grid(3, 2, &[0x00, 0x1A, 0xB2, 0x03, 0x04, 0xFF]);
    let path = [(0, 0), (0, 1), (1, 1), (2, 1)];
    let expected = "Total cost: 0x106 (262 decimal)\n\
Path length: 4 steps\n\
Path: (0,0)->(0,1)->(1,1)->(2,1)\n\
\n\
Step-by-step costs:\n\
Start 0x00 (0,0)\n\
+ 0x03 (0,1) -> 3\n\
+ 0x04 (1,1) -> 7\n\
+ 0xFF (2,1) -> 262\n\
Total: 0x106 (262)\n";
    assert_eq!(path_report(&g, 262, &path), expected);
}

#[test]
fn report_on_short_walks() {
    let g = grid(2, 1, &[0, 0xFF]);
    assert_eq!(
        path_report(&g, 0, &[(0, 0)]),
        "Total cost: 0x0 (0 decimal)\nPath length: 1 steps\nPath: (0,0)\n\nStep-by-step costs:\nStart 0x00 (0,0)\nTotal: 0x0 (0)\n"
    );
    assert_eq!(
        path_report(&g, 7, &[]),
        "Total cost: 0x7 (7 decimal)\nPath length: 0 steps\nPath: \n\nStep-by-step costs:\nStart 0x00 (0,0)\nTotal: 0x7 (7)\n"
    );
    // A cell outside the grid costs nothing.
    assert_eq!(
        path_report(&g, 255, &[(0, 0), (5, 5), (1, 0)]),
        "Total cost: 0xFF (255 decimal)\nPath length: 3 steps\nPath: (0,0)->(5,5)->(1,0)\n\nStep-by-step costs:\nStart 0x00 (0,0)\n+ 0x00 (5,5) -> 0\n+ 0xFF (1,0) -> 255\nTotal: 0xFF (255)\n"
    );
    assert_eq!(
        path_report(&g, u64::MAX, &[(0, 0)]),
        format!(
            "Total cost: 0x{:X} ({} decimal)\nPath length: 1 steps\nPath: (0,0)\n\nStep-by-step costs:\nStart 0x00 (0,0)\nTotal: 0x{:X} ({})\n",
            u64::MAX,
            u64::MAX,
            u64::MAX,
            u64::MAX
        )
    );
}

#[test]
fn picture_without_colour() {
    let g = grid(3, 2, &[0x00, 0x1A, 0xB2, 0x03, 0x04, 0xFF]);
    assert_eq!(
        visualization(&g, &[(0, 0), (1, 0)], None, false),
        "HEX GRID:\n00 1A B2\n03 04 FF\n"
    );
    assert_eq!(visualization(&grid(0, 0, &[]), &[], None, true), "HEX GRID:\n");
}

#[test]
fn picture_with_colour() {
    let g = grid(2, 2, &[0x00, 0x33, 0x80, 0xFF]);
    let cheapest = [(0, 0), (1, 0), (1, 1)];
    let dearest = [(0, 0), (0, 1), (1, 1)];
    // Cells on the dearest walk are red, even where the cheapest passes too.
    assert_eq!(
        visualization(&g, &cheapest, Some(&dearest[..]), true),
        "HEX GRID:\n\x1b[31m00\x1b[0m \x1b[97m33\x1b[0m\n\x1b[31m80\x1b[0m \x1b[31mFF\x1b[0m\n"
    );
    assert_eq!(
        visualization(&g, &[(0, 0)], None, true),
        "HEX GRID:\n\x1b[97m00\x1b[0m \x1b[38;5;75m33\x1b[0m\n\x1b[38;5;112m80\x1b[0m \x1b[38;5;205mFF\x1b[0m\n"
    );
    // Cells of a walk that lie outside the grid mark nothing.
    assert_eq!(
        visualization(&g, &[(2, 0), (0, 2), (9, 9)], None, true),
        "HEX GRID:\n\x1b[38;5;32m00\x1b[0m \x1b[38;5;75m33\x1b[0m\n\x1b[38;5;112m80\x1b[0m \x1b[38;5;205mFF\x1b[0m\n"
    );
}

fn searched(w: usize, h: usize) -> String {
    let mut out = String::from("Searching for minimum cost path...\n");
    let n = w * h;
    let mut seen = vec![false; n];
    let mut q = VecDeque::new();
    seen[0] = true;
    q.push_back(0usize);
    let mut step_no = 0usize;
    while let Some(idx) = q.pop_front() {
        step_no += 1;
        let x = idx % w;
        let y = idx / w;
        out.push_str(&format!("Step {}: Exploring ({},{})\n", step_no, x, y));
        if step_no >= 8 {
            out.push_str("[Animation continues...]\n");
            break;
        }
        for (nx, ny) in neighbors4(x, y, w, h) {
            let nidx = ny * w + nx;
            if !seen[nidx] {
                seen[nidx] = true;
                q.push_back(nidx);
            }
        }
    }
    out
}

#[test]
fn animation_shows_the_first_steps() {
    assert_eq!(
        light_animation(4, 4),
        "Searching for minimum cost path...\n\
Step 1: Exploring (0,0)\n\
Step 2: Exploring (0,1)\n\
Step 3: Exploring (1,0)\n\
Step 4: Exploring (0,2)\n\
Step 5: Exploring (1,1)\n\
Step 6: Exploring (2,0)\n\
Step 7: Exploring (0,3)\n\
Step 8: Exploring (1,2)\n\
[Animation continues...]\n"
    );
    assert_eq!(
        light_animation(1, 1),
        "Searching for minimum cost path...\nStep 1: Exploring (0,0)\n"
    );
}

#[test]
fn animation_agrees_with_a_breadth_first_search() {
    for w in 1usize..=10 {
        for h in 1usize..=10 {
            assert_eq!(light_animation(w, h), searched(w, h), "{w}x{h}");
        }
    }
}
