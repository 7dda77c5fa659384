use libccanvas::bindings::Colour;
use scroll::chunk::Chunk;
use scroll::entry::Entry;
use scroll::position::ScrollPosition;
use scroll::request::{
    handle_request, process, shape, ScrollRequest, ScrollRequestVariant, ScrollResponse,
    ScrollResponseVariant,
};
use scroll::state::{gen_uid, Config, State};

fn text(s: &str) -> Chunk {
    Chunk::Text { value: s.to_string() }
}

fn entry(parts: &[&str]) -> Entry {
    Entry(parts.iter().map(|p| text(p)).collect())
}

/// Each chunk as a string: the text itself, or `<colour>` for a marker.
fn show(e: &Entry) -> Vec<String> {
    e.0.iter()
        .map(|c| match c {
            Chunk::Text { value } => value.clone(),
            Chunk::Colour { .. } => "<colour>".to_string(),
        })
        .collect()
}

fn show_lines(lines: &[Entry]) -> Vec<Vec<String>> {
    lines.iter().map(show).collect()
}

fn config(line_wrap: bool, word_wrap: bool, max_entries: usize) -> Config {
    Config { line_wrap, word_wrap, max_entries }
}

fn add_end(state: &mut State, parts: &[&str]) -> Option<u32> {
    state.add(entry(parts), ScrollPosition::Relative { index: 0 })
}

fn uids(state: &State) -> Vec<u32> {
    state.entries.iter().map(|(u, _)| *u).collect()
}

fn add_request(id: u32, parts: &[&str]) -> ScrollRequest {
    ScrollRequest {
        content: ScrollRequestVariant::AddEntry {
            position: ScrollPosition::Relative { index: 0 },
            entry: entry(parts),
        },
        id,
    }
}

#[test]
fn chunk_lengths() {
    assert_eq!(text("hello").len(), 5);
    assert_eq!(Chunk::Colour { value: Colour::Red }.len(), 0);
    assert_eq!(text("").len(), 0);
}

#[test]
fn text_width_counts_code_units() {
    assert_eq!(text("\u{e9}").len(), 2);
    assert_eq!(text("a\u{20ac}").len(), 4);
    assert_eq!(text("\u{1f600}").len(), 4);
}

#[test]
fn truncate_and_skip_respect_character_boundaries() {
    assert_eq!(show(&Entry(vec![text("a\u{e9}b").truncate(2)])), vec!["a"]);
    assert_eq!(show(&Entry(vec![text("a\u{e9}b").truncate(3)])), vec!["a\u{e9}"]);
    assert_eq!(show(&Entry(vec![text("a\u{e9}b").skip(1)])), vec!["\u{e9}b"]);
    assert_eq!(show(&Entry(vec![text("a\u{e9}b").skip(2)])), vec!["b"]);
    assert_eq!(show(&Entry(vec![text("a\u{e9}b").skip(3)])), vec!["b"]);
}

#[test]
fn hard_wrap_counts_code_units() {
    let lines = entry(&["h\u{e9}llo"]).plain_wrap(3);
    assert_eq!(show_lines(&lines), vec![vec!["h\u{e9}"], vec!["llo"]]);
    let lines = entry(&["\u{e9}\u{e9}"]).plain_wrap(1);
    assert_eq!(show_lines(&lines), vec![vec![""], vec![""], vec![""]]);
}

#[test]
fn chunk_truncate_and_skip() {
    assert_eq!(show(&Entry(vec![text("hello world").truncate(6)])), vec!["hello "]);
    assert_eq!(show(&Entry(vec![text("hi").truncate(6)])), vec!["hi"]);
    assert_eq!(show(&Entry(vec![text("hello world").skip(6)])), vec!["world"]);
    assert_eq!(show(&Entry(vec![text("hi").skip(6)])), vec![""]);
    let c = Chunk::Colour { value: Colour::Blue }.truncate(0);
    assert!(matches!(c, Chunk::Colour { value: Colour::Blue }));
    let c = Chunk::Colour { value: Colour::Blue }.skip(3);
    assert!(matches!(c, Chunk::Colour { value: Colour::Blue }));
}

#[test]
fn position_absolute_clamps_to_cursor() {
    assert_eq!(ScrollPosition::Absolute { index: 7 }.eval(3), 3);
    assert_eq!(ScrollPosition::Absolute { index: 1 }.eval(3), 1);
}

#[test]
fn position_relative_clamps_at_zero() {
    assert_eq!(ScrollPosition::Relative { index: -5 }.eval(2), 0);
    assert_eq!(ScrollPosition::Relative { index: -1 }.eval(2), 1);
    assert_eq!(ScrollPosition::Relative { index: 4 }.eval(2), 2);
}

#[test]
fn truncate_only_drops_overflow() {
    let lines = entry(&["hello world"]).truncate(6);
    assert_eq!(show(&lines), vec!["hello "]);
    let mut state = State::new(config(false, false, 100));
    add_end(&mut state, &["hello world"]);
    state.format(6);
    assert_eq!(state.formatted_cache_width, 6);
    assert_eq!(show_lines(&state.formatted_cache), vec![vec!["hello "]]);
}

#[test]
fn truncate_over_several_chunks() {
    let e = Entry(vec![text("abc"), Chunk::Colour { value: Colour::Red }, text("defg"), text("xyz")]);
    assert_eq!(show(&e.truncate(5)), vec!["abc", "<colour>", "de"]);
    assert_eq!(show(&e.truncate(10)), vec!["abc", "<colour>", "defg", "xyz"]);
}

#[test]
fn hard_wrap_splits_at_width() {
    let lines = entry(&["hello world"]).plain_wrap(6);
    assert_eq!(show_lines(&lines), vec![vec!["hello "], vec!["world"]]);
    let mut state = State::new(config(true, false, 100));
    add_end(&mut state, &["hello world"]);
    state.format(6);
    assert_eq!(show_lines(&state.formatted_cache), vec![vec!["hello "], vec!["world"]]);
}

#[test]
fn hard_wrap_carries_colour_to_new_line() {
    let e = Entry(vec![Chunk::Colour { value: Colour::Green }, text("abcdefgh")]);
    let lines = e.plain_wrap(3);
    assert_eq!(
        show_lines(&lines),
        vec![vec!["<colour>", "abc"], vec!["<colour>", "def"], vec!["<colour>", "gh"]]
    );
    assert!(matches!(lines[1].0[0], Chunk::Colour { value: Colour::Green }));
}

#[test]
fn hard_wrap_skips_by_full_width_after_earlier_chunks() {
    let lines = entry(&["abc", "defg"]).plain_wrap(6);
    assert_eq!(show_lines(&lines), vec![vec!["abc", "def"], vec![""]]);
}

#[test]
fn word_wrap_keeps_words_whole() {
    let lines = entry(&["hello world"]).word_wrap(6);
    assert_eq!(show_lines(&lines), vec![vec!["hello "], vec!["world"]]);
    let lines = entry(&["ab cd ef"]).word_wrap(5);
    assert_eq!(show_lines(&lines), vec![vec!["ab "], vec!["cd ", "ef"]]);
    let mut state = State::new(config(true, true, 100));
    add_end(&mut state, &["hello world"]);
    state.format(6);
    assert_eq!(show_lines(&state.formatted_cache), vec![vec!["hello "], vec!["world"]]);
}

#[test]
fn word_wrap_skips_by_full_width_after_earlier_chunks() {
    let lines = entry(&["abc", "defghijk"]).word_wrap(6);
    assert_eq!(show_lines(&lines), vec![vec!["abc", "def"], vec!["jk"]]);
}

#[test]
fn word_wrap_cuts_words_longer_than_a_line() {
    let lines = entry(&["abcdefgh"]).word_wrap(3);
    assert_eq!(show_lines(&lines), vec![vec!["abc"], vec!["def"], vec!["gh"]]);
}

#[test]
fn split_words_keeps_spaces_on_all_but_last() {
    let e = Entry(vec![text("a b  c"), Chunk::Colour { value: Colour::Red }, text("d")]);
    assert_eq!(show(&e.split_words()), vec!["a ", "b ", " ", "c", "<colour>", "d"]);
    assert_eq!(show(&entry(&[""]).split_words()), vec![""]);
}

#[test]
fn format_with_zero_width_changes_nothing() {
    let mut state = State::new(config(true, false, 100));
    add_end(&mut state, &["hello"]);
    state.format(4);
    state.format(0);
    assert_eq!(state.formatted_cache_width, 4);
    assert_eq!(show_lines(&state.formatted_cache), vec![vec!["hell"], vec!["o"]]);
}

#[test]
fn gen_uid_counts_up() {
    let mut last = 0u32;
    assert_eq!(gen_uid(&mut last), 1);
    assert_eq!(gen_uid(&mut last), 2);
    assert_eq!(last, 2);
}

#[test]
fn uids_strictly_increase() {
    let mut state = State::new(config(true, false, 2));
    let a = add_end(&mut state, &["a"]).unwrap();
    let b = state.add(entry(&["b"]), ScrollPosition::Absolute { index: 0 }).unwrap();
    let c = add_end(&mut state, &["c"]).unwrap();
    assert!(a < b && b < c);
    let d = add_end(&mut state, &["d"]).unwrap();
    assert!(c < d);
}

#[test]
fn eviction_keeps_latest_two() {
    let mut state = State::new(config(true, false, 2));
    add_end(&mut state, &["one"]);
    add_end(&mut state, &["two"]);
    add_end(&mut state, &["three"]);
    assert_eq!(state.skip, 1);
    assert_eq!(state.entries.len(), 2);
    assert_eq!(show(&state.entries[0].1), vec!["two"]);
    assert_eq!(show(&state.entries[1].1), vec!["three"]);
}

#[test]
fn bound_and_skip_hold_over_many_operations() {
    let mut state = State::new(config(true, false, 3));
    let mut last_skip = state.skip;
    for i in 0..10u32 {
        add_end(&mut state, &["x"]);
        if i % 3 == 0 {
            let first = state.entries[0].0;
            assert!(state.remove(first));
        }
        state.add(entry(&["y"]), ScrollPosition::Absolute { index: 0 });
        assert!(state.entries.len() <= 3);
        assert!(state.skip >= last_skip);
        last_skip = state.skip;
    }
}

#[test]
fn add_below_window_consumes_a_slot() {
    let mut state = State::new(config(true, false, 1));
    add_end(&mut state, &["a"]);
    add_end(&mut state, &["b"]);
    assert_eq!(state.skip, 1);
    let r = state.add(entry(&["c"]), ScrollPosition::Absolute { index: 0 });
    assert_eq!(r, None);
    assert_eq!(state.skip, 2);
    assert_eq!(show(&state.entries[0].1), vec!["b"]);
}

#[test]
fn add_inserts_at_position() {
    let mut state = State::new(config(true, false, 10));
    add_end(&mut state, &["a"]);
    add_end(&mut state, &["c"]);
    let b = state.add(entry(&["b"]), ScrollPosition::Relative { index: -1 }).unwrap();
    assert_eq!(b, 3);
    assert_eq!(uids(&state), vec![1, 3, 2]);
}

#[test]
fn remove_and_update_by_uid() {
    let mut state = State::new(config(true, false, 10));
    let a = add_end(&mut state, &["a"]).unwrap();
    let b = add_end(&mut state, &["b"]).unwrap();
    assert!(state.update(b, entry(&["bee"])));
    assert_eq!(show(&state.entries[1].1), vec!["bee"]);
    assert!(!state.update(99, entry(&["z"])));
    assert!(state.remove(a));
    assert!(!state.remove(a));
    assert_eq!(uids(&state), vec![b]);
}

#[test]
fn batch_acknowledged_before_members() {
    let mut state = State::new(config(true, false, 10));
    let request = ScrollRequest {
        content: ScrollRequestVariant::Multiple {
            requests: vec![add_request(11, &["a"]), add_request(12, &["b"])],
        },
        id: 10,
    };
    let (response, rerender) = handle_request(&mut state, request, 6);
    assert!(rerender);
    let response = response.unwrap();
    assert_eq!(response.id, 10);
    match response.content {
        ScrollResponseVariant::Multiple { responses } => {
            assert_eq!(responses.len(), 3);
            assert!(matches!(responses[0], ScrollResponseVariant::Recieved));
            assert!(matches!(responses[1], ScrollResponseVariant::Created { uid: 1 }));
            assert!(matches!(responses[2], ScrollResponseVariant::Created { uid: 2 }));
        }
        _ => panic!("expected a batch of responses"),
    }
    assert_eq!(show_lines(&state.formatted_cache), vec![vec!["a"], vec!["b"]]);
}

#[test]
fn nested_batches_run_in_queue_order() {
    let mut state = State::new(config(true, false, 10));
    let inner = ScrollRequest {
        content: ScrollRequestVariant::Multiple { requests: vec![add_request(4, &["inner"])] },
        id: 3,
    };
    let request = ScrollRequest {
        content: ScrollRequestVariant::Multiple { requests: vec![inner, add_request(2, &["outer"])] },
        id: 1,
    };
    let (responses, updated) = process(&mut state, request);
    assert!(updated);
    let ids: Vec<u32> = responses.iter().map(|r| r.id).collect();
    assert_eq!(ids, vec![1, 3, 2, 4]);
    assert_eq!(show(&state.entries[0].1), vec!["outer"]);
    assert_eq!(show(&state.entries[1].1), vec!["inner"]);
}

#[test]
fn batch_of_mutations_redraws_once() {
    let mut state = State::new(config(true, false, 10));
    let request = ScrollRequest {
        content: ScrollRequestVariant::Multiple {
            requests: vec![add_request(2, &["a"]), add_request(3, &["b"]), add_request(4, &["c"])],
        },
        id: 1,
    };
    let (responses, updated) = process(&mut state, request);
    assert_eq!(responses.len(), 4);
    assert!(updated);
    assert!(state.formatted_cache.is_empty());
    let request = ScrollRequest {
        content: ScrollRequestVariant::Multiple {
            requests: vec![add_request(6, &["d"]), add_request(7, &["e"])],
        },
        id: 5,
    };
    let (_, rerender) = handle_request(&mut state, request, 10);
    assert!(rerender);
    assert_eq!(state.formatted_cache.len(), 5);
}

#[test]
fn failed_requests_answer_not_found() {
    let mut state = State::new(config(true, false, 10));
    let request = ScrollRequest { content: ScrollRequestVariant::RemoveEntry { uid: 9 }, id: 5 };
    let (response, rerender) = handle_request(&mut state, request, 10);
    assert!(!rerender);
    let response = response.unwrap();
    assert_eq!(response.id, 5);
    assert!(matches!(response.content, ScrollResponseVariant::NotFound));
    let request = ScrollRequest {
        content: ScrollRequestVariant::UpdateEntry { uid: 9, new: entry(&["x"]) },
        id: 6,
    };
    let (response, _) = handle_request(&mut state, request, 10);
    assert!(matches!(response.unwrap().content, ScrollResponseVariant::NotFound));
}

#[test]
fn single_response_goes_back_as_is() {
    let mut state = State::new(config(true, false, 10));
    let (response, rerender) = handle_request(&mut state, add_request(8, &["a"]), 10);
    assert!(rerender);
    let response = response.unwrap();
    assert_eq!(response.id, 8);
    assert!(matches!(response.content, ScrollResponseVariant::Created { uid: 1 }));
}

#[test]
fn shaping_nothing_gives_nothing() {
    assert!(shape(Vec::new()).is_none());
    let one = shape(vec![ScrollResponse::new(3, ScrollResponseVariant::Removed)]).unwrap();
    assert_eq!(one.id, 3);
    assert!(matches!(one.content, ScrollResponseVariant::Removed));
}
