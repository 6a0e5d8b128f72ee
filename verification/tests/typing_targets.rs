use typey_birb::typing::{
    apply_new_word, apply_new_words, exclusion_for, issue_target, process_keystroke, word_avoids,
    Action, TypingTarget, WordList,
};

fn target(word: &str, letter_actions: Vec<Action>, word_actions: Vec<Action>) -> TypingTarget {
    TypingTarget {
        letter_actions,
        word_actions,
        index: 0,
        word: word.to_string(),
    }
}

fn pool(words: &[&str]) -> WordList {
    WordList::new(words.iter().map(|w| w.to_string()).collect())
}

#[test]
fn keystroke_correctness() {
    // Typing "cat" advances the index 0 -> 1 -> 2 -> 3; the third keystroke
    // emits exactly one replacement request plus the word actions.
    let mut targets = vec![target(
        "cat",
        vec![Action::BirbUp],
        vec![Action::IncScore(2)],
    )];

    let ev = process_keystroke(&mut targets, 'c');
    assert_eq!(ev, vec![Action::BirbUp]);
    assert_eq!(targets[0].index, 1);

    let ev = process_keystroke(&mut targets, 'a');
    assert_eq!(ev, vec![Action::BirbUp]);
    assert_eq!(targets[0].index, 2);

    let ev = process_keystroke(&mut targets, 't');
    assert_eq!(
        ev,
        vec![Action::BirbUp, Action::NewWord(0), Action::IncScore(2)]
    );
    assert_eq!(targets[0].index, 3);
}

#[test]
fn keystroke_wrong_second_char() {
    let mut targets = vec![target("cat", vec![Action::BirbUp], vec![])];

    let ev = process_keystroke(&mut targets, 'c');
    assert_eq!(ev, vec![Action::BirbUp]);

    let ev = process_keystroke(&mut targets, 'x');
    assert_eq!(ev, vec![Action::BadFlap]);
    assert_eq!(targets[0].index, 1);
}

#[test]
fn mismatched_input() {
    // A keystroke matching no live target emits exactly one BadFlap and
    // moves no index.
    let mut targets = vec![
        target("dog", vec![Action::BirbUp], vec![]),
        target("cat", vec![Action::BirbDown], vec![]),
    ];
    let ev = process_keystroke(&mut targets, 'z');
    assert_eq!(ev, vec![Action::BadFlap]);
    assert_eq!(targets[0].index, 0);
    assert_eq!(targets[1].index, 0);
}

#[test]
fn shared_first_letter_advances_both() {
    let mut targets = vec![
        target("cap", vec![Action::BirbUp], vec![]),
        target("cot", vec![Action::BirbDown], vec![]),
    ];
    let ev = process_keystroke(&mut targets, 'c');
    assert_eq!(ev, vec![Action::BirbUp, Action::BirbDown]);
    assert_eq!(targets[0].index, 1);
    assert_eq!(targets[1].index, 1);
}

#[test]
fn whole_word_target_fires_once() {
    let mut targets = vec![TypingTarget::new_whole(
        "up".to_string(),
        vec![Action::Start],
    )];
    let ev = process_keystroke(&mut targets, 'u');
    assert_eq!(ev, vec![]);
    let ev = process_keystroke(&mut targets, 'p');
    assert_eq!(ev, vec![Action::NewWord(0), Action::Start]);
}

#[test]
fn current_and_advance() {
    let mut t = TypingTarget::new("cat".to_string(), vec![Action::BirbUp]);
    assert_eq!(t.current_char(), Some('c'));
    assert_eq!(t.advance_char(), Some('a'));
    assert_eq!(t.advance_char(), Some('t'));
    assert_eq!(t.advance_char(), None);
    t.replace("dog".to_string());
    assert_eq!(t.index, 0);
    assert_eq!(t.current_char(), Some('d'));
}

#[test]
fn exclusion_skips_replaced_target() {
    let targets = vec![
        target("cat", vec![], vec![]),
        target("dog", vec![], vec![]),
    ];
    let not = exclusion_for(&targets, 0);
    for ch in ['d', 'o', 'g'] {
        assert!(not.contains(&ch));
    }
    for ch in ['c', 'a', 't'] {
        assert!(!not.contains(&ch));
    }
}

#[test]
fn exclusion_out_of_range_takes_all() {
    let targets = vec![
        target("ab", vec![], vec![]),
        target("cd", vec![], vec![]),
    ];
    let not = exclusion_for(&targets, targets.len());
    for ch in ['a', 'b', 'c', 'd'] {
        assert!(not.contains(&ch));
    }
}

#[test]
fn word_avoids_checks_every_char() {
    assert!(word_avoids(&"cat".to_string(), &vec!['x', 'y']));
    assert!(!word_avoids(&"cat".to_string(), &vec!['x', 'a']));
}

#[test]
fn find_next_word_picks_only_candidate() {
    // Regardless of shuffling, the one word avoiding the exclusion set must
    // come back.
    for _ in 0..20 {
        let mut words = pool(&["ab", "ax", "cd"]);
        let next = words.find_next_word(&vec!['a']);
        assert_eq!(next, Some("cd".to_string()));
    }
}

#[test]
fn find_next_word_exhausted_pool() {
    let mut words = pool(&["ab", "ba"]);
    assert_eq!(words.find_next_word(&vec!['a']), None);
}

#[test]
fn replacement_keeps_letters_disjoint() {
    let mut targets = vec![
        target("ab", vec![Action::BirbUp], vec![]),
        target("cd", vec![Action::BirbDown], vec![]),
    ];
    let mut words = pool(&["cd", "ce", "xy"]);
    let changed = apply_new_word(&mut targets, 0, &mut words);
    assert!(changed);
    // "cd" and "ce" collide with the other live word, so "xy" is the only
    // legal replacement.
    assert_eq!(targets[0].word, "xy");
    assert_eq!(targets[0].index, 0);
    assert_eq!(targets[0].letter_actions, vec![Action::BirbUp]);
    assert_eq!(targets[1].word, "cd");
}

#[test]
fn replacement_failure_keeps_word() {
    let mut targets = vec![
        target("ab", vec![], vec![]),
        target("cd", vec![], vec![]),
    ];
    // every word in the pool reuses a letter of "cd"
    let mut words = pool(&["cx", "dy"]);
    let changed = apply_new_word(&mut targets, 0, &mut words);
    assert!(!changed);
    assert_eq!(targets[0].word, "ab");
    assert_eq!(targets[0].index, 0);
}

#[test]
fn completed_word_is_replaced_via_batch() {
    let mut targets = vec![
        target("ab", vec![], vec![Action::IncScore(1)]),
        target("cd", vec![], vec![]),
    ];
    let mut words = pool(&["ce", "xy"]);
    process_keystroke(&mut targets, 'a');
    let ev = process_keystroke(&mut targets, 'b');
    assert_eq!(ev, vec![Action::NewWord(0), Action::IncScore(1)]);
    apply_new_words(&mut targets, &ev, &mut words);
    assert_eq!(targets[0].word, "xy");
    assert_eq!(targets[0].index, 0);
    assert_eq!(targets[1].word, "cd");
}

#[test]
fn batch_ignores_unknown_target() {
    let mut targets = vec![target("ab", vec![], vec![])];
    let mut words = pool(&["xy"]);
    apply_new_words(&mut targets, &vec![Action::NewWord(9)], &mut words);
    assert_eq!(targets[0].word, "ab");
}

#[test]
fn batch_ignores_other_events() {
    let mut targets = vec![target("ab", vec![], vec![])];
    targets[0].index = 1;
    let mut words = pool(&["xy"]);
    let events = vec![Action::BirbUp, Action::BadFlap, Action::IncScore(3), Action::Start];
    apply_new_words(&mut targets, &events, &mut words);
    assert_eq!(targets[0].word, "ab");
    assert_eq!(targets[0].index, 1);
}

#[test]
fn issued_target_respects_live_letters() {
    let mut targets = vec![target("ab", vec![], vec![])];
    let mut words = pool(&["ax", "cd"]);
    let issued = issue_target(&mut targets, vec![Action::BirbUp], &mut words);
    assert!(issued);
    assert_eq!(targets.len(), 2);
    // "ax" reuses a live letter, so "cd" is the only legal issue.
    assert_eq!(targets[1].word, "cd");
    assert_eq!(targets[1].index, 0);
    assert_eq!(targets[1].letter_actions, vec![Action::BirbUp]);
    assert!(targets[1].word_actions.is_empty());
    assert_eq!(targets[0].word, "ab");
}

#[test]
fn issue_fails_when_pool_exhausted() {
    let mut targets = vec![target("ab", vec![], vec![]), target("cd", vec![], vec![])];
    let mut words = pool(&["ca", "db"]);
    let issued = issue_target(&mut targets, vec![Action::BirbDown], &mut words);
    assert!(!issued);
    assert_eq!(targets.len(), 2);
    assert_eq!(targets[0].word, "ab");
    assert_eq!(targets[1].word, "cd");
}
