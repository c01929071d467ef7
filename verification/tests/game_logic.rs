use bevy_flappy_bird::animation::{bird_flap_frames, Animation};
use bevy_flappy_bird::atlas::{
    atlas_text_is_valid, chars_of, parse_atlas, same_chars, sprite_rect, Atlas, FIELDS_PER_LINE,
    SHEET_HEIGHT, SHEET_WIDTH,
};
use bevy_flappy_bird::game::{count_fresh_passes, count_passed, recycle, GameState, INVINCIBLE};
use bevy_flappy_bird::score_text::score_text;
use bevy_flappy_bird::text::{split_lines, split_words, white_space};

fn chars(s: &str) -> Vec<char> {
    s.chars().collect()
}

fn strings(v: &[Vec<char>]) -> Vec<String> {
    v.iter().map(|c| c.iter().collect()).collect()
}

const SHEET: &str = "bg_day 288 512 0.0 0.0 0.28125 0.5\n\
bird0_0 48 48 0.0 0.9472656 0.046875 0.046875\n\
bird0_1 48 48 0.0546875 0.9472656 0.046875 0.046875\n\
bird0_2 48 48 0.109375 0.9472656 0.046875 0.046875\n\
land 336 112 0.5703125 0.0 0.328125 0.109375\n\
pipe_down 52 320 0.109375 0.6308594 0.05078125 0.3125\n\
pipe_up 52 320 0.1640625 0.6308594 0.05078125 0.3125\n";

#[test]
fn score_text_is_decimal() {
    for n in [0u32, 1, 9, 10, 11, 99, 100, 305, 1000, 65536, 4294967295] {
        let t: String = score_text(n).into_iter().collect();
        assert_eq!(t, format!("{}", n));
    }
}

#[test]
fn score_text_examples() {
    assert_eq!(score_text(0), vec!['0']);
    assert_eq!(score_text(42), vec!['4', '2']);
    assert_eq!(score_text(1007), vec!['1', '0', '0', '7']);
}

#[test]
fn lines_split_as_std_does() {
    let cases = [
        "",
        "a",
        "a\n",
        "a\nb",
        "a\r\nb\r\n",
        "a\n\nb\n",
        "\n",
        "\r\n",
        "a\rb\n",
        "x\r",
        "\n\n\n",
        "one two\r\r\nthree",
    ];
    for case in cases {
        let got = strings(&split_lines(&chars(case)));
        let want: Vec<String> = case.lines().map(|l| l.to_string()).collect();
        assert_eq!(got, want, "lines of {:?}", case);
    }
}

#[test]
fn lines_examples() {
    assert_eq!(strings(&split_lines(&chars("a\r\nb\n\nc"))), vec!["a", "b", "", "c"]);
    assert!(split_lines(&chars("")).is_empty());
}

#[test]
fn words_split_as_std_does() {
    let cases = [
        "",
        "   ",
        "a",
        " a b ",
        "bird0_0 48 48\t0.0  0.9",
        "\u{3000}x\u{a0}y\u{2028}z\u{85}",
        "a\u{200b}b",
        "\t\n\u{b}\u{c}\rend",
    ];
    for case in cases {
        let got = strings(&split_words(&chars(case)));
        let want: Vec<String> = case.split_whitespace().map(|w| w.to_string()).collect();
        assert_eq!(got, want, "words of {:?}", case);
    }
}

#[test]
fn white_space_matches_std() {
    for u in 0u32..=0x10FFFF {
        if let Some(c) = char::from_u32(u) {
            assert_eq!(white_space(c), c.is_whitespace(), "U+{:04X}", u);
        }
    }
}

#[test]
fn atlas_text_validity() {
    assert!(atlas_text_is_valid(&chars(SHEET)));
    assert!(atlas_text_is_valid(&chars("")));
    assert!(!atlas_text_is_valid(&chars("land 336 112 0.5 0.0 0.3\n")));
    assert!(!atlas_text_is_valid(&chars("land 336 112 0.5 0.0 0.3 0.1\n\n")));
    assert!(!atlas_text_is_valid(&chars("a 1 2 3 4 5 6\n  \nb 1 2 3 4 5 6")));
    assert_eq!(FIELDS_PER_LINE, 7);
}

#[test]
fn atlas_entries_read_fields() {
    let entries = parse_atlas(&chars(SHEET));
    assert_eq!(entries.len(), 7);
    let land = &entries[4];
    assert_eq!(land.name.iter().collect::<String>(), "land");
    assert_eq!(land.u.iter().collect::<String>(), "0.5703125");
    assert_eq!(land.v.iter().collect::<String>(), "0.0");
    assert_eq!(land.u_extent.iter().collect::<String>(), "0.328125");
    assert_eq!(land.v_extent.iter().collect::<String>(), "0.109375");
    let extra = parse_atlas(&chars("x 1 2 3 4 5 6 7 8\r\n"));
    assert_eq!(extra.len(), 1);
    assert_eq!(extra[0].v_extent, vec!['6']);
}

#[test]
fn atlas_lookup_by_name() {
    let atlas = Atlas::from_entries(&parse_atlas(&chars(SHEET)));
    assert_eq!(atlas.len(), 7);
    assert_eq!(atlas.index_of_name("bg_day"), Some(0));
    assert_eq!(atlas.index_of_name("land"), Some(4));
    assert_eq!(atlas.index_of_name("pipe_up"), Some(6));
    assert_eq!(atlas.index_of_name("pipe_down"), Some(5));
    assert_eq!(atlas.index_of_name("bird0_3"), None);
    assert_eq!(atlas.index_of_name(""), None);
    assert_eq!(atlas.index_of(&chars("bird0_1")), Some(2));
}

#[test]
fn atlas_later_line_replaces_earlier() {
    let text = "a 1 1 0 0 1 1\nb 1 1 0 0 1 1\na 2 2 0 0 1 1\n";
    let atlas = Atlas::from_entries(&parse_atlas(&chars(text)));
    assert_eq!(atlas.index_of_name("a"), Some(2));
    assert_eq!(atlas.index_of_name("b"), Some(1));
}

#[test]
fn bird_frames_beat_up_middle_down_middle() {
    let atlas = Atlas::from_entries(&parse_atlas(&chars(SHEET)));
    assert_eq!(bird_flap_frames(&atlas), Some(vec![1, 2, 3, 2]));
    let partial = Atlas::from_entries(&parse_atlas(&chars("bird0_0 1 1 0 0 1 1\nbird0_2 1 1 0 0 1 1")));
    assert_eq!(bird_flap_frames(&partial), None);
}

#[test]
fn animation_cycles_through_frames() {
    let mut a = Animation::new(vec![1, 2, 3, 2]);
    assert_eq!(a.current_frame(), 1);
    assert_eq!(a.current(), 0);
    assert_eq!(a.len(), 4);
    assert_eq!(a.advance(), 2);
    assert_eq!(a.advance(), 3);
    assert_eq!(a.advance(), 2);
    assert_eq!(a.advance(), 1);
    assert_eq!(a.current(), 0);
    let mut single = Animation::new(vec![7]);
    assert_eq!(single.advance(), 7);
    assert_eq!(single.current(), 0);
}

#[test]
fn animation_full_loop_returns_to_start() {
    let mut a = Animation::new(vec![10, 11, 12]);
    a.advance();
    let start = a.current();
    for _ in 0..a.len() {
        a.advance();
    }
    assert_eq!(a.current(), start);
}

#[test]
fn new_round_is_alive_with_zero_score() {
    let g = GameState::new();
    assert!(!g.dead);
    assert_eq!(g.score, 0);
    assert!(g.world_scrolls());
    assert!(g.flaps(true));
    assert!(!g.flaps(false));
}

#[test]
fn first_hit_crashes_once() {
    assert!(!INVINCIBLE);
    let mut g = GameState::new();
    assert!(!g.register_hits(&vec![false, false]));
    assert!(!g.dead);
    assert!(!g.register_hits(&vec![]));
    assert!(g.register_hits(&vec![false, true, true]));
    assert!(g.dead);
    assert!(!g.register_hits(&vec![true]));
    assert!(g.dead);
    assert!(!g.flaps(true));
    assert!(!g.world_scrolls());
}

#[test]
fn passing_pipes_scores() {
    let mut g = GameState::new();
    assert_eq!(g.score_passes(&vec![false, true, false, true]), vec![1, 3]);
    assert_eq!(g.score, 2);
    assert_eq!(g.score_passes(&vec![]), Vec::<usize>::new());
    assert_eq!(g.score, 2);
    assert_eq!(g.score_passes(&vec![true]), vec![0]);
    assert_eq!(g.score, 3);
    let mut near_max = GameState { dead: true, score: u32::MAX - 1 };
    assert_eq!(near_max.score_passes(&vec![false, true]), vec![1]);
    assert_eq!(near_max.score, u32::MAX);
    assert!(near_max.dead);
}

#[test]
fn each_pipe_scores_once() {
    let mut g = GameState::new();
    let mut passed = vec![false, true, false, false];
    let crossed = vec![true, true, false, true];
    assert_eq!(count_fresh_passes(&passed, &crossed), 2);
    assert_eq!(g.mark_passed_pipes(&mut passed, &crossed), vec![0, 3]);
    assert_eq!(passed, vec![true, true, false, true]);
    assert_eq!(g.score, 2);
    assert_eq!(count_fresh_passes(&passed, &crossed), 0);
    assert_eq!(g.mark_passed_pipes(&mut passed, &crossed), Vec::<usize>::new());
    assert_eq!(passed, vec![true, true, false, true]);
    assert_eq!(g.score, 2);
    let crossed_more = vec![true, true, true, true];
    assert_eq!(g.mark_passed_pipes(&mut passed, &crossed_more), vec![2]);
    assert_eq!(g.score, 3);
}

#[test]
fn passes_are_counted() {
    assert_eq!(count_passed(&vec![]), 0);
    assert_eq!(count_passed(&vec![true, false, true, true]), 3);
    assert_eq!(count_passed(&vec![false; 5]), 0);
}

#[test]
fn offscreen_entities_are_recycled() {
    let ground = recycle(true, false, false, true, false);
    assert_eq!((ground.despawns, ground.spawn_ground, ground.spawn_pipe_pair), (1, true, false));
    let ground_on_screen = recycle(true, false, false, false, true);
    assert_eq!(
        (ground_on_screen.despawns, ground_on_screen.spawn_ground, ground_on_screen.spawn_pipe_pair),
        (0, false, false)
    );
    let top = recycle(false, true, true, false, true);
    assert_eq!((top.despawns, top.spawn_ground, top.spawn_pipe_pair), (1, false, true));
    let bottom = recycle(false, true, false, true, true);
    assert_eq!((bottom.despawns, bottom.spawn_ground, bottom.spawn_pipe_pair), (1, false, false));
    let both = recycle(true, true, true, true, true);
    assert_eq!((both.despawns, both.spawn_ground, both.spawn_pipe_pair), (2, true, true));
    let neither = recycle(false, false, false, true, true);
    assert_eq!((neither.despawns, neither.spawn_ground, neither.spawn_pipe_pair), (0, false, false));
}

#[test]
fn sprite_rect_spans_size() {
    assert_eq!((SHEET_WIDTH, SHEET_HEIGHT), (1024, 1024));
    let r = sprite_rect(584, 0, 336, 112);
    assert_eq!((r.min_x, r.min_y, r.max_x, r.max_y), (584, 0, 920, 112));
}

#[test]
fn chars_and_comparison() {
    assert_eq!(chars_of("pipe_up"), chars("pipe_up"));
    assert_eq!(chars_of("été\u{3000}"), vec!['é', 't', 'é', '\u{3000}']);
    assert!(same_chars(&chars("land"), &chars("land")));
    assert!(!same_chars(&chars("land"), &chars("lane")));
    assert!(!same_chars(&chars("land"), &chars("lan")));
}
