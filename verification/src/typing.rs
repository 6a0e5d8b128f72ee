//! The typing state machine: target words the player races to type, the
//! per-keystroke matching that turns key presses into gameplay actions, and
//! the word list that supplies replacement words sharing no letter with the
//! other targets on screen.

use vstd::multiset::Multiset;
use vstd::prelude::*;

verus! {

/// A semantic gameplay action emitted by the typing state machine and
/// consumed by the movement, scoring and state-transition collaborators.
/// `NewWord` carries the identifier (list position) of the target whose word
/// was completed and must be replaced.
#[derive(Clone, Copy, Debug, PartialEq, Eq, Structural)]
pub enum Action {
    BadFlap,
    BirbUp,
    BirbDown,
    NewWord(usize),
    IncScore(u32),
    Start,
    Retry,
}

/// One on-screen word the player is racing to type. `index` counts the
/// characters already correctly typed; `letter_actions` fire on every
/// correct keystroke, `word_actions` only when the word is completed.
pub struct TypingTarget {
    pub letter_actions: Vec<Action>,
    pub word_actions: Vec<Action>,
    pub index: usize,
    pub word: String,
}

impl TypingTarget {
    /// The typed-so-far cursor always stays inside the word.
    pub open spec fn wf(self) -> bool {
        self.index <= self.word@.len()
    }

    /// A target whose every correct keystroke fires `actions`.
    pub fn new(word: String, actions: Vec<Action>) -> (t: Self)
        ensures
            t.word == word,
            t.index == 0,
            t.letter_actions == actions,
            t.word_actions@ == Seq::<Action>::empty(),
            t.wf(),
    {
        Self { letter_actions: actions, word_actions: Vec::new(), index: 0, word }
    }

    /// A target that fires `actions` only when the whole word is typed.
    pub fn new_whole(word: String, actions: Vec<Action>) -> (t: Self)
        ensures
            t.word == word,
            t.index == 0,
            t.word_actions == actions,
            t.letter_actions@ == Seq::<Action>::empty(),
            t.wf(),
    {
        Self { word_actions: actions, letter_actions: Vec::new(), index: 0, word }
    }

    /// The character the player must type next, or `None` when the word is
    /// spent.
    pub fn current_char(&self) -> (c: Option<char>)
        requires
            self.wf(),
        ensures
            c == (if self.index < self.word@.len() {
                Some(self.word@[self.index as int])
            } else {
                None::<char>
            }),
    {
        if self.index < self.word.as_str().unicode_len() {
            Some(self.word.as_str().get_char(self.index))
        } else {
            None
        }
    }

    /// Step past one correctly typed character and look at the next one.
    pub fn advance_char(&mut self) -> (c: Option<char>)
        requires
            old(self).wf(),
            old(self).index < old(self).word@.len(),
        ensures
            final(self).wf(),
            final(self).word == old(self).word,
            final(self).letter_actions == old(self).letter_actions,
            final(self).word_actions == old(self).word_actions,
            final(self).index == old(self).index + 1,
            c == (if old(self).index + 1 < old(self).word@.len() {
                Some(old(self).word@[old(self).index + 1])
            } else {
                None::<char>
            }),
    {
        // Learn the word's character count, so the cursor increment is
        // visibly in bounds.
        let _chars = self.word.as_str().unicode_len();
        self.index = self.index + 1;
        self.current_char()
    }

    /// Hand the target a fresh word; typing starts over from its first
    /// character.
    pub fn replace(&mut self, new: String)
        ensures
            final(self).word == new,
            final(self).index == 0,
            final(self).letter_actions == old(self).letter_actions,
            final(self).word_actions == old(self).word_actions,
            final(self).wf(),
    {
        self.word = new;
        self.index = 0;
    }
}

/// Does keystroke `c` match target `t`'s next untyped character?
pub open spec fn matches_key(t: TypingTarget, c: char) -> bool {
    t.index < t.word@.len() && t.word@[t.index as int] == c
}

/// The target after keystroke `c`: advanced by one character when the
/// keystroke matches, untouched otherwise.
pub open spec fn step_target(t: TypingTarget, c: char) -> TypingTarget {
    if matches_key(t, c) {
        TypingTarget { index: (t.index + 1) as usize, ..t }
    } else {
        t
    }
}

/// The actions targets `i..` of the list emit for keystroke `c`: for each
/// matching target, its letter actions, then — when the keystroke completes
/// its word — a replacement request carrying the target's identifier,
/// followed by its word actions.
pub open spec fn events_from(targets: Seq<TypingTarget>, c: char, i: int) -> Seq<Action>
    decreases targets.len() - i,
{
    if i < 0 || i >= targets.len() {
        Seq::empty()
    } else {
        let t = targets[i];
        let head = if matches_key(t, c) {
            if t.index + 1 == t.word@.len() {
                t.letter_actions@ + seq![Action::NewWord(i as usize)] + t.word_actions@
            } else {
                t.letter_actions@
            }
        } else {
            Seq::empty()
        };
        head + events_from(targets, c, i + 1)
    }
}

/// Whether any live target matches keystroke `c`.
pub open spec fn any_match(targets: Seq<TypingTarget>, c: char) -> bool {
    exists|j: int| 0 <= j < targets.len() && matches_key(targets[j], c)
}

/// Everything keystroke `c` emits: the per-target actions, or the single
/// mistyped-input signal when no target matches.
pub open spec fn keystroke_events(targets: Seq<TypingTarget>, c: char) -> Seq<Action> {
    if any_match(targets, c) {
        events_from(targets, c, 0)
    } else {
        seq![Action::BadFlap]
    }
}

proof fn lemma_no_match_no_events(targets: Seq<TypingTarget>, c: char, i: int)
    requires
        forall|j: int| 0 <= j < targets.len() ==> !matches_key(targets[j], c),
    ensures
        events_from(targets, c, i) == Seq::<Action>::empty(),
    decreases targets.len() - i,
{
    if 0 <= i < targets.len() {
        lemma_no_match_no_events(targets, c, i + 1);
        assert(events_from(targets, c, i) =~= Seq::<Action>::empty());
    }
}

fn append_actions(events: &mut Vec<Action>, actions: &Vec<Action>)
    ensures
        final(events)@ == old(events)@ + actions@,
{
    proof {
        assert(old(events)@ + actions@.subrange(0, 0) =~= old(events)@);
    }
    let mut k: usize = 0;
    while k < actions.len()
        invariant
            k <= actions@.len(),
            events@ == old(events)@ + actions@.subrange(0, k as int),
        decreases actions@.len() - k,
    {
        events.push(actions[k]);
        proof {
            assert(events@ =~= old(events)@ + actions@.subrange(0, k + 1));
        }
        k = k + 1;
    }
    proof {
        assert(actions@.subrange(0, actions@.len() as int) =~= actions@);
    }
}

/// Feed one keystroke to every live target. Each target whose next untyped
/// character is `c` advances by one and emits its letter actions; a target
/// completed by the keystroke additionally emits a replacement request and
/// its word actions. When no target matches, the single mistyped-input
/// signal `BadFlap` is emitted instead and no target moves.
pub fn process_keystroke(targets: &mut Vec<TypingTarget>, c: char) -> (events: Vec<Action>)
    requires
        forall|j: int| 0 <= j < old(targets)@.len() ==> old(targets)@[j].wf(),
    ensures
        final(targets)@.len() == old(targets)@.len(),
        forall|j: int|
            0 <= j < old(targets)@.len() ==> final(targets)@[j] == step_target(
                old(targets)@[j],
                c,
            ),
        events@ == keystroke_events(old(targets)@, c),
        forall|j: int| 0 <= j < final(targets)@.len() ==> (#[trigger] final(targets)@[j]).wf(),
        no_letter_overlap(old(targets)@) ==> no_letter_overlap(final(targets)@),
{
    let ghost orig = targets@;
    let mut events: Vec<Action> = Vec::new();
    let mut ok = false;
    let n = targets.len();
    proof {
        assert(events@ + events_from(orig, c, 0) =~= events_from(orig, c, 0));
    }
    let mut i: usize = 0;
    while i < n
        invariant
            n == orig.len(),
            targets@.len() == n,
            i <= n,
            forall|j: int| 0 <= j < orig.len() ==> orig[j].wf(),
            forall|j: int| 0 <= j < i ==> targets@[j] == step_target(orig[j], c),
            forall|j: int| i <= j < n ==> targets@[j] == orig[j],
            events@ + events_from(orig, c, i as int) == events_from(orig, c, 0),
            ok == any_match(orig.subrange(0, i as int), c),
        decreases n - i,
    {
        let ghost events_before = events@;
        let matched = match targets[i].current_char() {
            Some(ch) => ch == c,
            None => false,
        };
        if matched {
            append_actions(&mut events, &targets[i].letter_actions);
            let done = targets[i].advance_char().is_none();
            if done {
                events.push(Action::NewWord(i));
                append_actions(&mut events, &targets[i].word_actions);
            }
            ok = true;
            proof {
                let head = if orig[i as int].index + 1 == orig[i as int].word@.len() {
                    orig[i as int].letter_actions@ + seq![Action::NewWord(i)] + orig[
                        i as int
                    ].word_actions@
                } else {
                    orig[i as int].letter_actions@
                };
                assert(events@ =~= events_before + head);
            }
        }
        proof {
            let head = if matches_key(orig[i as int], c) {
                if orig[i as int].index + 1 == orig[i as int].word@.len() {
                    orig[i as int].letter_actions@ + seq![Action::NewWord(i)] + orig[
                        i as int
                    ].word_actions@
                } else {
                    orig[i as int].letter_actions@
                }
            } else {
                Seq::<Action>::empty()
            };
            assert(events_from(orig, c, i as int) == head + events_from(orig, c, i + 1));
            assert(events@ + events_from(orig, c, i + 1) =~= events_from(orig, c, 0));
            assert(orig.subrange(0, i + 1) =~= orig.subrange(0, i as int).push(orig[i as int]));
            assert((matched || ok) == any_match(orig.subrange(0, i + 1), c)) by {
                if matched || ok {
                    if matched {
                        assert(matches_key(orig.subrange(0, i + 1)[i as int], c));
                    } else {
                        let j = choose|j: int|
                            0 <= j < i && matches_key(orig.subrange(0, i as int)[j], c);
                        assert(matches_key(orig.subrange(0, i + 1)[j], c));
                    }
                }
            }
        }
        i = i + 1;
    }
    proof {
        assert(events@ + events_from(orig, c, n as int) =~= events@);
        assert(orig.subrange(0, n as int) =~= orig);
    }
    if !ok {
        proof {
            lemma_no_match_no_events(orig, c, 0);
            assert(events@ =~= Seq::<Action>::empty());
        }
        events.push(Action::BadFlap);
        proof {
            assert(events@ =~= seq![Action::BadFlap]);
        }
    }
    proof {
        assert forall|j: int| 0 <= j < targets@.len() implies (#[trigger] targets@[j]).wf() by {
            assert(targets@[j] == step_target(orig[j], c));
        }
        if no_letter_overlap(orig) {
            assert forall|a: int, b: int|
                0 <= a < targets@.len() && 0 <= b < targets@.len() && a != b implies letters_disjoint(
                #[trigger] targets@[a].word@,
                #[trigger] targets@[b].word@,
            ) by {
                assert(targets@[a] == step_target(orig[a], c));
                assert(targets@[b] == step_target(orig[b], c));
                assert(letters_disjoint(orig[a].word@, orig[b].word@));
            }
        }
    }
    events
}

/// Whether word `w` contains none of the characters in `not`.
pub open spec fn avoids(w: Seq<char>, not: Seq<char>) -> bool {
    forall|i: int| 0 <= i < w.len() ==> !not.contains(w[i])
}

/// Does `ch` occur in `not`?
fn contains_char(not: &Vec<char>, ch: char) -> (r: bool)
    ensures
        r == not@.contains(ch),
{
    let mut i: usize = 0;
    while i < not.len()
        invariant
            i <= not@.len(),
            forall|k: int| 0 <= k < i ==> not@[k] != ch,
        decreases not@.len() - i,
    {
        if not[i] == ch {
            return true;
        }
        i = i + 1;
    }
    false
}

/// Does `w` contain none of the characters in `not`?
pub fn word_avoids(w: &String, not: &Vec<char>) -> (r: bool)
    ensures
        r == avoids(w@, not@),
{
    let s = w.as_str();
    let n = s.unicode_len();
    let mut i: usize = 0;
    while i < n
        invariant
            n == w@.len(),
            i <= n,
            s@ == w@,
            forall|k: int| 0 <= k < i ==> !not@.contains(w@[k]),
        decreases n - i,
    {
        if contains_char(not, s.get_char(i)) {
            return false;
        }
        i = i + 1;
    }
    true
}

/// A multiset-preserving change of a word pool preserves any property that
/// held of every word.
proof fn lemma_all_words_preserved(s1: Seq<String>, s2: Seq<String>, p: spec_fn(String) -> bool)
    requires
        s1.to_multiset() == s2.to_multiset(),
        forall|j: int| 0 <= j < s1.len() ==> p(s1[j]),
    ensures
        forall|j: int| 0 <= j < s2.len() ==> p(s2[j]),
{
    broadcast use vstd::seq_lib::group_to_multiset_ensures;

    assert forall|j: int| 0 <= j < s2.len() implies p(s2[j]) by {
        assert(s2.contains(s2[j]));
        assert(s1.to_multiset().count(s2[j]) > 0);
        assert(s1.contains(s2[j]));
        let k = choose|k: int| 0 <= k < s1.len() && s1[k] == s2[j];
        assert(p(s1[k]));
    }
}

/// The pool of words replacement targets draw from: a shuffled deck dealt
/// one word at a time, reshuffled each time it runs out.
pub struct WordList {
    words: Vec<String>,
    index: usize,
}

impl WordList {
    /// The words currently in the pool, in deal order.
    pub closed spec fn pool(self) -> Seq<String> {
        self.words@
    }

    /// The deal position inside the current pass over the pool.
    pub closed spec fn position(self) -> int {
        self.index as int
    }

    pub open spec fn wf(self) -> bool {
        &&& self.pool().len() > 0
        &&& 0 <= self.position() < self.pool().len()
        &&& forall|j: int| 0 <= j < self.pool().len() ==> self.pool()[j]@.len() > 0
    }

    /// Build a word list from a nonempty pool of nonempty words; the pool is
    /// dealt in shuffled order, starting from its first position.
    pub fn new(words: Vec<String>) -> (wl: Self)
        requires
            words@.len() > 0,
            forall|j: int| 0 <= j < words@.len() ==> words@[j]@.len() > 0,
        ensures
            wl.wf(),
            wl.pool().to_multiset() == words@.to_multiset(),
            wl.position() == 0,
    {
        let ghost orig = words@;
        let mut words = words;
        crate::rng::shuffle(&mut words);
        proof {
            lemma_all_words_preserved(orig, words@, |w: String| w@.len() > 0);
        }
        WordList { words, index: 0 }
    }

    /// Deal the next word: step the cursor, or — when the pass is over —
    /// reshuffle the pool and start a fresh pass from its first word.
    fn advance_word(&mut self) -> (w: String)
        requires
            old(self).wf(),
        ensures
            final(self).wf(),
            final(self).pool().to_multiset() == old(self).pool().to_multiset(),
            old(self).position() + 1 < old(self).pool().len() ==> {
                &&& final(self).pool() == old(self).pool()
                &&& final(self).position() == old(self).position() + 1
            },
            old(self).position() + 1 >= old(self).pool().len() ==> final(self).position() == 0,
            w == final(self).pool()[final(self).position()],
            exists|j: int|
                0 <= j < final(self).pool().len() && final(self).pool()[j] == w,
            w@.len() > 0,
    {
        let n = self.words.len();
        self.index = self.index + 1;
        if self.index >= n {
            let ghost before = self.words@;
            crate::rng::shuffle(&mut self.words);
            proof {
                lemma_all_words_preserved(before, self.words@, |w: String| w@.len() > 0);
            }
            self.index = 0;
        }
        self.words[self.index].clone()
    }

    /// Deal words until one avoids every character in `not`: each failed
    /// attempt advances the deal, reshuffling the pool as it wraps. So that
    /// an unlucky run of deals cannot hang the caller, after as many failed
    /// attempts as the pool has words the deal gives way to one systematic
    /// pass over the pool. A word therefore comes back if and only if the
    /// pool holds one avoiding every excluded character.
    pub fn find_next_word(&mut self, not: &Vec<char>) -> (r: Option<String>)
        requires
            old(self).wf(),
        ensures
            final(self).wf(),
            final(self).pool().to_multiset() == old(self).pool().to_multiset(),
            match r {
                Some(w) => {
                    &&& avoids(w@, not@)
                    &&& w@.len() > 0
                    &&& exists|j: int|
                        0 <= j < final(self).pool().len() && final(self).pool()[j] == w
                },
                None => forall|j: int|
                    0 <= j < old(self).pool().len() ==> !avoids(
                        #[trigger] old(self).pool()[j]@,
                        not@,
                    ),
            },
    {
        let n = self.words.len();
        let mut attempts: usize = 0;
        while attempts < n
            invariant
                self.wf(),
                self.pool().to_multiset() == old(self).pool().to_multiset(),
            decreases n - attempts,
        {
            let next = self.advance_word();
            if word_avoids(&next, not) {
                return Some(next);
            }
            attempts = attempts + 1;
        }

        // The deal came up empty: one systematic pass settles whether any
        // word of the pool qualifies at all.
        let m = self.words.len();
        let mut j: usize = 0;
        while j < m
            invariant
                self.wf(),
                self.pool().to_multiset() == old(self).pool().to_multiset(),
                m == self.pool().len(),
                j <= m,
                forall|k: int| 0 <= k < j ==> !avoids(#[trigger] self.pool()[k]@, not@),
            decreases m - j,
        {
            if word_avoids(&self.words[j], not) {
                self.index = j;
                return Some(self.words[j].clone());
            }
            j = j + 1;
        }
        proof {
            lemma_all_words_preserved(
                self.pool(),
                old(self).pool(),
                |w: String| !avoids(w@, not@),
            );
        }
        None
    }
}

/// A character a replacement word for target `replaced` must avoid: one
/// appearing in any *other* live target's word.
pub open spec fn excluded_char(targets: Seq<TypingTarget>, replaced: int, ch: char) -> bool {
    exists|j: int| 0 <= j < targets.len() && j != replaced && targets[j].word@.contains(ch)
}

/// Collect the characters a replacement word for target `replaced` must
/// avoid: exactly those appearing in the other live targets' words. The
/// replaced target's own word is never inspected. Passing a `replaced`
/// outside the list excludes every target's letters, which serves when a
/// brand-new target's word is chosen.
pub fn exclusion_for(targets: &Vec<TypingTarget>, replaced: usize) -> (not: Vec<char>)
    ensures
        forall|ch: char| not@.contains(ch) <==> excluded_char(targets@, replaced as int, ch),
{
    let mut not: Vec<char> = Vec::new();
    let n = targets.len();
    let mut j: usize = 0;
    while j < n
        invariant
            n == targets@.len(),
            j <= n,
            forall|ch: char|
                not@.contains(ch) <==> exists|j2: int|
                    0 <= j2 < j && j2 != replaced && targets@[j2].word@.contains(ch),
        decreases n - j,
    {
        if j != replaced {
            let s = targets[j].word.as_str();
            let m = s.unicode_len();
            let mut k: usize = 0;
            while k < m
                invariant
                    n == targets@.len(),
                    j < n,
                    j != replaced,
                    m == targets@[j as int].word@.len(),
                    s@ == targets@[j as int].word@,
                    k <= m,
                    forall|ch: char|
                        not@.contains(ch) <==> (exists|j2: int|
                            0 <= j2 < j && j2 != replaced && targets@[j2].word@.contains(ch))
                            || (exists|k2: int|
                            0 <= k2 < k && targets@[j as int].word@[k2] == ch),
                decreases m - k,
            {
                let ch = s.get_char(k);
                let ghost before = not@;
                not.push(ch);
                proof {
                    assert forall|c2: char|
                        not@.contains(c2) <==> (before.contains(c2) || c2 == ch) by {
                        if not@.contains(c2) {
                            let idx = choose|idx: int| 0 <= idx < not@.len() && not@[idx] == c2;
                            if idx < before.len() {
                                assert(before[idx] == c2);
                            }
                        }
                        if before.contains(c2) {
                            let idx = choose|idx: int|
                                0 <= idx < before.len() && before[idx] == c2;
                            assert(not@[idx] == c2);
                        }
                        if c2 == ch {
                            assert(not@[not@.len() - 1] == c2);
                        }
                    }
                    let w = targets@[j as int].word@;
                    assert(w[k as int] == ch);
                    assert forall|c2: char|
                        not@.contains(c2) <==> ((exists|j2: int|
                            0 <= j2 < j && j2 != replaced && targets@[j2].word@.contains(c2))
                            || (exists|k2: int| 0 <= k2 < k + 1 && w[k2] == c2)) by {
                        if not@.contains(c2) {
                            if !before.contains(c2) {
                                assert(c2 == ch);
                                assert(w[k as int] == c2);
                            } else {
                                if exists|k2: int| 0 <= k2 < k && w[k2] == c2 {
                                    let k2 = choose|k2: int| 0 <= k2 < k && w[k2] == c2;
                                    assert(0 <= k2 < k + 1 && w[k2] == c2);
                                }
                            }
                        }
                        if exists|k2: int| 0 <= k2 < k + 1 && w[k2] == c2 {
                            let k2 = choose|k2: int| 0 <= k2 < k + 1 && w[k2] == c2;
                            if k2 < k {
                                assert(before.contains(c2));
                            } else {
                                assert(c2 == ch);
                            }
                            assert(not@.contains(c2));
                        }
                        if exists|j2: int|
                            0 <= j2 < j && j2 != replaced && targets@[j2].word@.contains(c2) {
                            assert(before.contains(c2));
                            assert(not@.contains(c2));
                        }
                    }
                }
                k = k + 1;
            }
            proof {
                assert forall|ch: char|
                    not@.contains(ch) <==> exists|j2: int|
                        0 <= j2 < j + 1 && j2 != replaced && targets@[j2].word@.contains(ch) by {
                    if not@.contains(ch) {
                        if exists|k2: int|
                            0 <= k2 < m && targets@[j as int].word@[k2] == ch {
                            assert(targets@[j as int].word@.contains(ch));
                        }
                    }
                    if exists|j2: int|
                        0 <= j2 < j + 1 && j2 != replaced && targets@[j2].word@.contains(ch) {
                        let j2 = choose|j2: int|
                            0 <= j2 < j + 1 && j2 != replaced && targets@[j2].word@.contains(ch);
                        if j2 == j {
                            let k2 = choose|k2: int|
                                0 <= k2 < targets@[j as int].word@.len() && targets@[
                                    j as int
                                ].word@[k2] == ch;
                            assert(exists|k3: int|
                                0 <= k3 < m && targets@[j as int].word@[k3] == ch);
                        }
                    }
                }
            }
        }
        j = j + 1;
    }
    not
}

/// Whether word `w` may legally replace target `replaced`'s word: none of
/// its characters appears in any other live target's word.
pub open spec fn word_allowed(w: Seq<char>, targets: Seq<TypingTarget>, replaced: int) -> bool {
    forall|i: int| 0 <= i < w.len() ==> !excluded_char(targets, replaced, w[i])
}

/// Two words share no letter.
pub open spec fn letters_disjoint(a: Seq<char>, b: Seq<char>) -> bool {
    forall|ch: char| a.contains(ch) ==> !b.contains(ch)
}

/// No two distinct live targets share a letter, so no keystroke is ever
/// ambiguous between two in-progress words.
pub open spec fn no_letter_overlap(targets: Seq<TypingTarget>) -> bool {
    forall|i: int, j: int|
        0 <= i < targets.len() && 0 <= j < targets.len() && i != j ==> letters_disjoint(
            #[trigger] targets[i].word@,
            #[trigger] targets[j].word@,
        )
}

/// Building the exclusion set for a replacement never inspects the replaced
/// target's own word: two target lists that agree on every other word
/// exclude exactly the same characters.
pub proof fn lemma_exclusion_ignores_replaced(
    t1: Seq<TypingTarget>,
    t2: Seq<TypingTarget>,
    replaced: int,
)
    requires
        t1.len() == t2.len(),
        forall|j: int| 0 <= j < t1.len() && j != replaced ==> t1[j].word@ == t2[j].word@,
    ensures
        forall|ch: char| excluded_char(t1, replaced, ch) == excluded_char(t2, replaced, ch),
{
    assert forall|ch: char|
        excluded_char(t1, replaced, ch) == excluded_char(t2, replaced, ch) by {
        if excluded_char(t1, replaced, ch) {
            let j = choose|j: int|
                0 <= j < t1.len() && j != replaced && t1[j].word@.contains(ch);
            assert(t2[j].word@.contains(ch));
        }
        if excluded_char(t2, replaced, ch) {
            let j = choose|j: int|
                0 <= j < t2.len() && j != replaced && t2[j].word@.contains(ch);
            assert(t1[j].word@.contains(ch));
        }
    }
}

/// Handle a replacement request for target `replaced`: build the exclusion
/// set from every other live target's word, deal a word avoiding it from
/// the pool, and hand it to the target, whose typing starts over. When the
/// pool cannot supply such a word the target keeps its current word. Either
/// way, targets that shared no letter before still share none after.
pub fn apply_new_word(
    targets: &mut Vec<TypingTarget>,
    replaced: usize,
    words: &mut WordList,
) -> (changed: bool)
    requires
        old(words).wf(),
        replaced < old(targets)@.len(),
    ensures
        final(words).wf(),
        final(words).pool().to_multiset() == old(words).pool().to_multiset(),
        final(targets)@.len() == old(targets)@.len(),
        forall|j: int|
            0 <= j < old(targets)@.len() && j != replaced ==> final(targets)@[j] == old(
                targets,
            )@[j],
        changed ==> {
            &&& final(targets)@[replaced as int].index == 0
            &&& final(targets)@[replaced as int].word@.len() > 0
            &&& final(targets)@[replaced as int].letter_actions == old(targets)@[
                replaced as int
            ].letter_actions
            &&& final(targets)@[replaced as int].word_actions == old(targets)@[
                replaced as int
            ].word_actions
            &&& forall|ch: char|
                final(targets)@[replaced as int].word@.contains(ch) ==> !excluded_char(
                    old(targets)@,
                    replaced as int,
                    ch,
                )
            &&& final(words).pool().contains(final(targets)@[replaced as int].word)
        },
        !changed ==> final(targets)@[replaced as int] == old(targets)@[replaced as int],
        no_letter_overlap(old(targets)@) ==> no_letter_overlap(final(targets)@),
        changed == exists|j: int|
            0 <= j < old(words).pool().len() && word_allowed(
                #[trigger] old(words).pool()[j]@,
                old(targets)@,
                replaced as int,
            ),
{
    let not = exclusion_for(targets, replaced);
    proof {
        let ts = old(targets)@;
        let r = replaced as int;
        assert forall|w: Seq<char>| avoids(w, not@) == word_allowed(w, ts, r) by {
            if avoids(w, not@) {
                assert forall|i: int| 0 <= i < w.len() implies !excluded_char(ts, r, w[i]) by {
                    assert(!not@.contains(w[i]));
                }
            }
            if word_allowed(w, ts, r) {
                assert forall|i: int| 0 <= i < w.len() implies !not@.contains(w[i]) by {
                    assert(!excluded_char(ts, r, w[i]));
                }
            }
        }
    }
    match words.find_next_word(&not) {
        Some(next) => {
            let ghost next_val = next;
            targets[replaced].replace(next);
            proof {
                broadcast use vstd::seq_lib::group_to_multiset_ensures;

                let ts = old(targets)@;
                let r = replaced as int;
                let wp_old = old(words).pool();
                let wp_new = words.pool();
                assert(wp_new.contains(next_val));
                assert(wp_old.to_multiset().count(next_val) > 0);
                assert(wp_old.contains(next_val));
                let k = choose|k: int| 0 <= k < wp_old.len() && wp_old[k] == next_val;
                assert(word_allowed(wp_old[k]@, ts, r));
            }
            proof {
                let ts1 = old(targets)@;
                let ts2 = targets@;
                let r = replaced as int;
                if no_letter_overlap(ts1) {
                    assert forall|i: int, j: int|
                        0 <= i < ts2.len() && 0 <= j < ts2.len() && i != j implies letters_disjoint(
                        #[trigger] ts2[i].word@,
                        #[trigger] ts2[j].word@,
                    ) by {
                        if i != r && j != r {
                            assert(letters_disjoint(ts1[i].word@, ts1[j].word@));
                        } else if i == r {
                            assert forall|ch: char| ts2[i].word@.contains(ch) implies !ts2[
                                j
                            ].word@.contains(ch) by {
                                assert(!excluded_char(ts1, r, ch));
                            }
                        } else {
                            assert forall|ch: char| ts2[i].word@.contains(ch) implies !ts2[
                                j
                            ].word@.contains(ch) by {
                                if ts2[j].word@.contains(ch) {
                                    assert(!excluded_char(ts1, r, ch));
                                }
                            }
                        }
                    }
                }
            }
            true
        },
        None => {
            proof {
                let ts = old(targets)@;
                let r = replaced as int;
                assert forall|j: int|
                    0 <= j < old(words).pool().len() implies !word_allowed(
                    #[trigger] old(words).pool()[j]@,
                    ts,
                    r,
                ) by {
                    assert(!avoids(old(words).pool()[j]@, not@));
                }
            }
            false
        },
    }
}

/// Put a brand-new target on screen: deal it a word sharing no letter with
/// any live target's word, give it `actions` to fire on each correct
/// keystroke, and append it to the list. When the pool holds no such word
/// nothing is issued and the list stays as it was — which happens exactly
/// when no pool word avoids every live letter. Targets that shared no
/// letter before still share none after, the new one included.
pub fn issue_target(
    targets: &mut Vec<TypingTarget>,
    actions: Vec<Action>,
    words: &mut WordList,
) -> (issued: bool)
    requires
        old(words).wf(),
    ensures
        final(words).wf(),
        final(words).pool().to_multiset() == old(words).pool().to_multiset(),
        issued ==> {
            &&& final(targets)@.len() == old(targets)@.len() + 1
            &&& forall|j: int|
                0 <= j < old(targets)@.len() ==> final(targets)@[j] == old(targets)@[j]
            &&& final(targets)@.last().index == 0
            &&& final(targets)@.last().word@.len() > 0
            &&& final(targets)@.last().letter_actions == actions
            &&& final(targets)@.last().word_actions@ == Seq::<Action>::empty()
            &&& final(words).pool().contains(final(targets)@.last().word)
            &&& forall|ch: char|
                final(targets)@.last().word@.contains(ch) ==> !excluded_char(
                    old(targets)@,
                    old(targets)@.len() as int,
                    ch,
                )
        },
        !issued ==> final(targets)@ == old(targets)@,
        issued == exists|j: int|
            0 <= j < old(words).pool().len() && word_allowed(
                #[trigger] old(words).pool()[j]@,
                old(targets)@,
                old(targets)@.len() as int,
            ),
        no_letter_overlap(old(targets)@) ==> no_letter_overlap(final(targets)@),
{
    let fresh_id = targets.len();
    let not = exclusion_for(targets, fresh_id);
    proof {
        let ts = old(targets)@;
        let r = fresh_id as int;
        assert forall|w: Seq<char>| avoids(w, not@) == word_allowed(w, ts, r) by {
            if avoids(w, not@) {
                assert forall|i: int| 0 <= i < w.len() implies !excluded_char(ts, r, w[i]) by {
                    assert(!not@.contains(w[i]));
                }
            }
            if word_allowed(w, ts, r) {
                assert forall|i: int| 0 <= i < w.len() implies !not@.contains(w[i]) by {
                    assert(!excluded_char(ts, r, w[i]));
                }
            }
        }
    }
    match words.find_next_word(&not) {
        Some(next) => {
            let ghost next_val = next;
            targets.push(TypingTarget::new(next, actions));
            proof {
                broadcast use vstd::seq_lib::group_to_multiset_ensures;

                let ts1 = old(targets)@;
                let ts2 = targets@;
                let r = fresh_id as int;
                let wp_old = old(words).pool();
                assert(words.pool().contains(next_val));
                assert(wp_old.to_multiset().count(next_val) > 0);
                assert(wp_old.contains(next_val));
                let k = choose|k: int| 0 <= k < wp_old.len() && wp_old[k] == next_val;
                assert(word_allowed(wp_old[k]@, ts1, r));
                assert(ts2.last() == ts2[r]);
                if no_letter_overlap(ts1) {
                    assert forall|i: int, j: int|
                        0 <= i < ts2.len() && 0 <= j < ts2.len() && i != j implies letters_disjoint(
                        #[trigger] ts2[i].word@,
                        #[trigger] ts2[j].word@,
                    ) by {
                        if i != r && j != r {
                            assert(letters_disjoint(ts1[i].word@, ts1[j].word@));
                        } else if i == r {
                            assert forall|ch: char| ts2[i].word@.contains(ch) implies !ts2[
                                j
                            ].word@.contains(ch) by {
                                assert(!excluded_char(ts1, r, ch));
                            }
                        } else {
                            assert forall|ch: char| ts2[i].word@.contains(ch) implies !ts2[
                                j
                            ].word@.contains(ch) by {
                                if ts2[j].word@.contains(ch) {
                                    assert(!excluded_char(ts1, r, ch));
                                }
                            }
                        }
                    }
                }
            }
            true
        },
        None => {
            proof {
                let ts = old(targets)@;
                let r = fresh_id as int;
                assert forall|j: int|
                    0 <= j < old(words).pool().len() implies !word_allowed(
                    #[trigger] old(words).pool()[j]@,
                    ts,
                    r,
                ) by {
                    assert(!avoids(old(words).pool()[j]@, not@));
                }
            }
            false
        },
    }
}

/// Whether the action batch holds a replacement request naming target `id`.
pub open spec fn names_target(events: Seq<Action>, id: usize) -> bool {
    exists|e: int| 0 <= e < events.len() && events[e] == Action::NewWord(id)
}

/// What a batch of replacement requests may do to one target: leave it
/// alone, or hand it a fresh nonempty word drawn from the pool with typing
/// reset to the first character; its action lists are never touched.
pub open spec fn batch_outcome(before: TypingTarget, after: TypingTarget, pool: Seq<String>) -> bool {
    &&& after.letter_actions == before.letter_actions
    &&& after.word_actions == before.word_actions
    &&& (after == before || {
        &&& after.index == 0
        &&& after.word@.len() > 0
        &&& pool.contains(after.word)
    })
}

/// Everything one replacement request may do, `apply_new_word`'s contract
/// restated over the pool's (unchanging) multiset of words: targets other
/// than `id` keep their state; a live `id` gets a fresh nonempty pool word
/// avoiding the other targets' letters, with typing reset and action lists
/// kept, exactly when the pool holds a word it may legally take — and keeps
/// its state otherwise, as it does when `id` names no live target.
pub open spec fn replacement_step(
    before: Seq<TypingTarget>,
    after: Seq<TypingTarget>,
    id: usize,
    pool: Multiset<String>,
) -> bool {
    &&& after.len() == before.len()
    &&& forall|j: int| 0 <= j < before.len() && j != id ==> after[j] == before[j]
    &&& if (id as int) < before.len() {
        if exists|w: String| #[trigger] pool.count(w) > 0 && word_allowed(w@, before, id as int) {
            &&& after[id as int].index == 0
            &&& after[id as int].word@.len() > 0
            &&& after[id as int].letter_actions == before[id as int].letter_actions
            &&& after[id as int].word_actions == before[id as int].word_actions
            &&& pool.count(after[id as int].word) > 0
            &&& forall|ch: char|
                after[id as int].word@.contains(ch) ==> !excluded_char(before, id as int, ch)
        } else {
            after == before
        }
    } else {
        after == before
    }
}

/// A run of target-list states that steps through `events` in order:
/// `states[i]` is the list before event `i`, and each non-replacement event
/// changes nothing while each `NewWord` request relates the lists around it
/// by `replacement_step`.
pub open spec fn trace_ok(
    states: Seq<Seq<TypingTarget>>,
    events: Seq<Action>,
    pool: Multiset<String>,
) -> bool {
    &&& states.len() == events.len() + 1
    &&& forall|i: int|
        0 <= i < events.len() ==> (match events[i] {
            Action::NewWord(id) => replacement_step(#[trigger] states[i], states[i + 1], id, pool),
            _ => states[i + 1] == states[i],
        })
}

/// What a batch of events may leave behind: some run of intermediate target
/// lists leads from `before` to `after`, stepping through the events in
/// order as `trace_ok` says.
pub open spec fn batch_ok(
    before: Seq<TypingTarget>,
    events: Seq<Action>,
    after: Seq<TypingTarget>,
    pool: Multiset<String>,
) -> bool {
    exists|states: Seq<Seq<TypingTarget>>|
        #[trigger] trace_ok(states, events, pool) && states.first() == before && states.last()
            == after
}

/// Two word pools with equal multisets hold exactly the same words.
proof fn lemma_multiset_contains(s1: Seq<String>, s2: Seq<String>)
    requires
        s1.to_multiset() == s2.to_multiset(),
    ensures
        forall|w: String| s1.contains(w) ==> #[trigger] s2.contains(w),
{
    broadcast use vstd::seq_lib::group_to_multiset_ensures;

    assert forall|w: String| s1.contains(w) implies s2.contains(w) by {
        assert(s1.to_multiset().count(w) > 0);
        assert(s2.to_multiset().count(w) > 0);
    }
}

/// Apply every replacement request of an action batch, in order: each
/// `NewWord(id)` event hands target `id` a fresh word sharing no letter with
/// the other targets, exactly as `apply_new_word` does. A target named by no
/// request — in particular, every target when the batch holds no request at
/// all — is left untouched, as is a target named by a request whose `id` is
/// not live. A named live target either keeps its word (the pool had no
/// legal replacement at that point) or ends with a fresh nonempty pool word
/// and its typing reset; its action lists survive either way.
pub fn apply_new_words(
    targets: &mut Vec<TypingTarget>,
    events: &Vec<Action>,
    words: &mut WordList,
)
    requires
        old(words).wf(),
    ensures
        final(words).wf(),
        final(words).pool().to_multiset() == old(words).pool().to_multiset(),
        final(targets)@.len() == old(targets)@.len(),
        forall|j: usize|
            (j as int) < old(targets)@.len() && !names_target(events@, j)
                ==> final(targets)@[j as int] == old(targets)@[j as int],
        forall|j: int|
            0 <= j < old(targets)@.len() ==> batch_outcome(
                old(targets)@[j],
                #[trigger] final(targets)@[j],
                final(words).pool(),
            ),
        batch_ok(old(targets)@, events@, final(targets)@, old(words).pool().to_multiset()),
        no_letter_overlap(old(targets)@) ==> no_letter_overlap(final(targets)@),
{
    let ghost orig = targets@;
    let ghost pms = old(words).pool().to_multiset();
    let ghost mut trace: Seq<Seq<TypingTarget>> = seq![targets@];
    proof {
        assert(events@.subrange(0, 0) =~= Seq::<Action>::empty());
    }
    let mut e: usize = 0;
    while e < events.len()
        invariant
            orig == old(targets)@,
            e <= events@.len(),
            pms == old(words).pool().to_multiset(),
            words.wf(),
            words.pool().to_multiset() == old(words).pool().to_multiset(),
            trace.len() == e + 1,
            trace.first() == orig,
            trace.last() == targets@,
            trace_ok(trace, events@.subrange(0, e as int), pms),
            targets@.len() == orig.len(),
            forall|j: usize|
                (j as int) < orig.len() && !names_target(events@.subrange(0, e as int), j)
                    ==> targets@[j as int] == orig[j as int],
            forall|j: int|
                0 <= j < orig.len() ==> batch_outcome(
                    orig[j],
                    #[trigger] targets@[j],
                    words.pool(),
                ),
            no_letter_overlap(orig) ==> no_letter_overlap(targets@),
        decreases events@.len() - e,
    {
        let ghost targets_before = targets@;
        let ghost pool_before = words.pool();
        match events[e] {
            Action::NewWord(id) => {
                if id < targets.len() {
                    let changed = apply_new_word(targets, id, words);
                    proof {
                        broadcast use vstd::seq_lib::group_to_multiset_ensures;

                        let idi = id as int;
                        if changed {
                            let k = choose|k: int|
                                0 <= k < pool_before.len() && word_allowed(
                                    #[trigger] pool_before[k]@,
                                    targets_before,
                                    idi,
                                );
                            assert(pool_before.contains(pool_before[k]));
                            assert(pms.count(pool_before[k]) > 0);
                            assert(words.pool().contains(targets@[idi].word));
                            assert(pms.count(targets@[idi].word) > 0);
                        } else {
                            if exists|w: String|
                                #[trigger] pms.count(w) > 0 && word_allowed(
                                    w@,
                                    targets_before,
                                    idi,
                                ) {
                                let w = choose|w: String|
                                    #[trigger] pms.count(w) > 0 && word_allowed(
                                        w@,
                                        targets_before,
                                        idi,
                                    );
                                assert(pool_before.to_multiset().count(w) > 0);
                                assert(pool_before.contains(w));
                                let k = choose|k: int|
                                    0 <= k < pool_before.len() && pool_before[k] == w;
                                assert(word_allowed(pool_before[k]@, targets_before, idi));
                                assert(false);
                            }
                            assert(targets@ =~= targets_before);
                        }
                        assert(replacement_step(targets_before, targets@, id, pms));
                    }
                } else {
                    proof {
                        assert(replacement_step(targets_before, targets@, id, pms));
                    }
                }
            },
            _ => {},
        }
        proof {
            lemma_multiset_contains(pool_before, words.pool());
            let sub0 = events@.subrange(0, e as int);
            let sub1 = events@.subrange(0, e + 1);
            assert(sub1 =~= sub0.push(events@[e as int]));
            let trace0 = trace;
            trace = trace.push(targets@);
            assert(trace.first() == orig);
            assert(trace.last() == targets@);
            assert(trace_ok(trace, sub1, pms)) by {
                assert forall|i: int|
                    0 <= i < sub1.len() implies (match sub1[i] {
                    Action::NewWord(id) => replacement_step(
                        #[trigger] trace[i],
                        trace[i + 1],
                        id,
                        pms,
                    ),
                    _ => trace[i + 1] == trace[i],
                }) by {
                    assert(sub1[i] == events@[i]);
                    if i < e {
                        assert(trace[i] == trace0[i]);
                        assert(trace[i + 1] == trace0[i + 1]);
                        assert(sub0[i] == events@[i]);
                        assert(match sub0[i] {
                            Action::NewWord(id) => replacement_step(
                                trace0[i],
                                trace0[i + 1],
                                id,
                                pms,
                            ),
                            _ => trace0[i + 1] == trace0[i],
                        });
                    } else {
                        assert(trace[i] == trace0.last());
                        assert(trace0.last() == targets_before);
                        assert(trace[i + 1] == targets@);
                    }
                }
            }
            assert forall|j: usize|
                (j as int) < orig.len() && !names_target(sub1, j) implies targets@[j as int]
                == orig[j as int] by {
                if names_target(sub0, j) {
                    let ei = choose|ei: int|
                        0 <= ei < sub0.len() && sub0[ei] == Action::NewWord(j);
                    assert(sub1[ei] == Action::NewWord(j));
                    assert(false);
                }
                assert(sub1[e as int] == events@[e as int]);
                if events@[e as int] == Action::NewWord(j) {
                    assert(names_target(sub1, j));
                    assert(false);
                }
                assert(targets_before[j as int] == orig[j as int]);
            }
            assert forall|j: int|
                0 <= j < orig.len() implies batch_outcome(
                orig[j],
                #[trigger] targets@[j],
                words.pool(),
            ) by {
                assert(batch_outcome(orig[j], targets_before[j], pool_before));
            }
        }
        e = e + 1;
    }
    proof {
        assert(events@.subrange(0, events@.len() as int) =~= events@);
        assert(trace_ok(trace, events@, pms));
        assert(batch_ok(orig, events@, targets@, pms));
    }
}

} // verus!
