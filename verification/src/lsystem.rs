use vstd::prelude::*;
use std::collections::HashMap;
use crate::text::{
    is_ascii_space, words_state, bytes_eq, config_text_check, config_text_ok, lines, parse_u32, parse_word_u32, split_lines, split_words, views, words,
};

verus! {

broadcast use vstd::std_specs::hash::group_hash_axioms;

/// The letters of the map-building L-system.
#[derive(Clone, Copy, PartialEq, Eq, Structural, Hash, Debug)]
pub enum Alphabet {
    Fwd,
    Left,
    Right,
    Up,
    Down,
    Save,
    Return,
    Place,
    Blank,
}

/// A rule's context: the letter before, the letter rewritten, the letter after.
pub type Context = (Alphabet, Alphabet, Alphabet);

/// The character that stands for a letter in rule files.
pub open spec fn char_of(a: Alphabet) -> char {
    match a {
        Alphabet::Fwd => 'f',
        Alphabet::Left => 'l',
        Alphabet::Right => 'r',
        Alphabet::Up => 'u',
        Alphabet::Down => 'd',
        Alphabet::Save => '[',
        Alphabet::Return => ']',
        Alphabet::Place => 'p',
        Alphabet::Blank => '0',
    }
}

/// The letter a character stands for, if any.
pub open spec fn letter_of(c: char) -> Option<Alphabet> {
    if c == 'f' {
        Some(Alphabet::Fwd)
    } else if c == 'l' {
        Some(Alphabet::Left)
    } else if c == 'r' {
        Some(Alphabet::Right)
    } else if c == 'u' {
        Some(Alphabet::Up)
    } else if c == 'd' {
        Some(Alphabet::Down)
    } else if c == '[' {
        Some(Alphabet::Save)
    } else if c == ']' {
        Some(Alphabet::Return)
    } else if c == 'p' {
        Some(Alphabet::Place)
    } else if c == '0' {
        Some(Alphabet::Blank)
    } else {
        Option::None
    }
}

/// Position of a letter in the alphabet, 0 to 8.
pub open spec fn letter_code(a: Alphabet) -> u32 {
    match a {
        Alphabet::Fwd => 0,
        Alphabet::Left => 1,
        Alphabet::Right => 2,
        Alphabet::Up => 3,
        Alphabet::Down => 4,
        Alphabet::Save => 5,
        Alphabet::Return => 6,
        Alphabet::Place => 7,
        Alphabet::Blank => 8,
    }
}

/// The number under which the rule for a context is stored.
pub open spec fn context_key(t: Context) -> u32 {
    (letter_code(t.0) * 81 + letter_code(t.1) * 9 + letter_code(t.2)) as u32
}

impl Alphabet {
    pub fn to_char(a: Alphabet) -> (c: char)
        ensures
            c == char_of(a),
    {
        match a {
            Alphabet::Fwd => 'f',
            Alphabet::Left => 'l',
            Alphabet::Right => 'r',
            Alphabet::Up => 'u',
            Alphabet::Down => 'd',
            Alphabet::Save => '[',
            Alphabet::Return => ']',
            Alphabet::Place => 'p',
            Alphabet::Blank => '0',
        }
    }

    pub fn from_char(c: char) -> (r: Option<Alphabet>)
        ensures
            r == letter_of(c),
    {
        if c == 'f' {
            return Some(Alphabet::Fwd);
        } else if c == 'l' {
            return Some(Alphabet::Left);
        } else if c == 'r' {
            return Some(Alphabet::Right);
        } else if c == 'u' {
            return Some(Alphabet::Up);
        } else if c == 'd' {
            return Some(Alphabet::Down);
        } else if c == '[' {
            return Some(Alphabet::Save);
        } else if c == ']' {
            return Some(Alphabet::Return);
        } else if c == 'p' {
            return Some(Alphabet::Place);
        } else if c == '0' {
            return Some(Alphabet::Blank);
        }
        Option::None
    }

    fn code(&self) -> (k: u32)
        ensures
            k == letter_code(*self),
    {
        match self {
            Alphabet::Fwd => 0,
            Alphabet::Left => 1,
            Alphabet::Right => 2,
            Alphabet::Up => 3,
            Alphabet::Down => 4,
            Alphabet::Save => 5,
            Alphabet::Return => 6,
            Alphabet::Place => 7,
            Alphabet::Blank => 8,
        }
    }
}

/// Reading a letter's character back gives the letter, and a character that
/// reads as a letter is that letter's character.
pub proof fn lemma_char_round_trip(a: Alphabet, c: char)
    ensures
        letter_of(char_of(a)) == Some(a),
        letter_of(c) == Some(a) ==> char_of(a) == c,
{
}

proof fn lemma_context_key_injective(t: Context, u: Context)
    requires
        context_key(t) == context_key(u),
    ensures
        t == u,
{
    let (a, b, c) = (letter_code(t.0), letter_code(t.1), letter_code(t.2));
    let (x, y, z) = (letter_code(u.0), letter_code(u.1), letter_code(u.2));
    assert(a * 81 + b * 9 + c == x * 81 + y * 9 + z);
    assert(a == x && b == y && c == z) by (nonlinear_arith)
        requires
            a * 81 + b * 9 + c == x * 81 + y * 9 + z,
            a < 9,
            b < 9,
            c < 9,
            x < 9,
            y < 9,
            z < 9,
    ;
}

fn context_code(t: Context) -> (k: u32)
    ensures
        k == context_key(t),
{
    t.0.code() * 81 + t.1.code() * 9 + t.2.code()
}

/// A walker of the L-system's drawing: where it stands and where it heads.
pub struct Turtle {
    pub position: (i32, i32, i32),
    pub direction: (i32, i32, i32),
}

impl Turtle {
    pub fn new(position: (i32, i32, i32), direction: (i32, i32, i32)) -> (t: Self)
        ensures
            t.position == position,
            t.direction == direction,
    {
        Turtle { position, direction }
    }
}

/// A context-sensitive L-system over `Alphabet`.
pub struct LSystem {
    current: Vec<Alphabet>,
    rules: HashMap<u32, Vec<Alphabet>>,
    pub iterations: u32,
    pub turtles: u32,
}

/// The letters that letter `i` of `cur` becomes in one rewriting step: the rule
/// for its full context, else the rule that ignores the letter before, else the
/// one that ignores the letter after, else the one that ignores both; a letter
/// with no rule stays.  Outside the string the neighbour is `Alphabet::Blank`.
pub open spec fn expansion_at(rules: Map<Context, Seq<Alphabet>>, cur: Seq<Alphabet>, i: int) -> Seq<
    Alphabet,
> {
    let pred = if i > 0 {
        cur[i - 1]
    } else {
        Alphabet::Blank
    };
    let target = cur[i];
    let succ = if i < cur.len() - 1 {
        cur[i + 1]
    } else {
        Alphabet::Blank
    };
    if rules.contains_key((pred, target, succ)) {
        rules[(pred, target, succ)]
    } else if rules.contains_key((Alphabet::Blank, target, succ)) {
        rules[(Alphabet::Blank, target, succ)]
    } else if rules.contains_key((pred, target, Alphabet::Blank)) {
        rules[(pred, target, Alphabet::Blank)]
    } else if rules.contains_key((Alphabet::Blank, target, Alphabet::Blank)) {
        rules[(Alphabet::Blank, target, Alphabet::Blank)]
    } else {
        seq![target]
    }
}

/// The expansions of the first `n` letters of `cur`, one after another.
pub open spec fn rewrite_prefix(rules: Map<Context, Seq<Alphabet>>, cur: Seq<Alphabet>, n: nat) -> Seq<
    Alphabet,
>
    decreases n,
{
    if n == 0 {
        Seq::empty()
    } else {
        rewrite_prefix(rules, cur, (n - 1) as nat) + expansion_at(rules, cur, n - 1)
    }
}

/// One rewriting step of the whole string.
pub open spec fn rewrite(rules: Map<Context, Seq<Alphabet>>, cur: Seq<Alphabet>) -> Seq<Alphabet> {
    rewrite_prefix(rules, cur, cur.len())
}

/// `n` rewriting steps.
pub open spec fn rewrite_n(rules: Map<Context, Seq<Alphabet>>, cur: Seq<Alphabet>, n: nat) -> Seq<
    Alphabet,
>
    decreases n,
{
    if n == 0 {
        cur
    } else {
        rewrite(rules, rewrite_n(rules, cur, (n - 1) as nat))
    }
}

fn push_all(updated: &mut Vec<Alphabet>, exp: &Vec<Alphabet>)
    ensures
        final(updated)@ == old(updated)@ + exp@,
{
    let mut exp_index: usize = 0;
    while exp_index < exp.len()
        invariant
            exp_index <= exp.len(),
            updated@ == old(updated)@ + exp@.take(exp_index as int),
        decreases exp.len() - exp_index,
    {
        updated.push(exp[exp_index]);
        exp_index += 1;
        assert(exp@.take(exp_index as int) =~= exp@.take(exp_index - 1).push(exp@[exp_index - 1]));
    }
    assert(exp@.take(exp.len() as int) =~= exp@);
}

impl LSystem {
    /// The string the system holds.
    pub closed spec fn current_seq(&self) -> Seq<Alphabet> {
        self.current@
    }

    /// The `iterations` setting.
    pub closed spec fn iteration_count(&self) -> u32 {
        self.iterations
    }

    /// The `turtles` setting.
    pub closed spec fn turtle_count(&self) -> u32 {
        self.turtles
    }

    /// The rewriting rules, by context.
    pub closed spec fn rules_map(&self) -> Map<Context, Seq<Alphabet>> {
        Map::new(
            |t: Context| self.rules@.contains_key(context_key(t)),
            |t: Context| self.rules@[context_key(t)]@,
        )
    }

    pub fn new() -> (l: Self)
        ensures
            l.current_seq() == Seq::<Alphabet>::empty(),
            l.rules_map() == Map::<Context, Seq<Alphabet>>::empty(),
            l.iteration_count() == 2,
            l.turtle_count() == 1,
    {
        let l = LSystem { current: Vec::new(), rules: HashMap::new(), iterations: 2, turtles: 1 };
        assert(l.rules_map() =~= Map::<Context, Seq<Alphabet>>::empty());
        l
    }

    /// Set (or replace) the rule for a context.
    pub fn add_rule(&mut self, context: (Alphabet, Alphabet, Alphabet), exp: Vec<Alphabet>)
        ensures
            final(self).rules_map() == old(self).rules_map().insert(context, exp@),
            final(self).current_seq() == old(self).current_seq(),
            final(self).iteration_count() == old(self).iteration_count(),
            final(self).turtle_count() == old(self).turtle_count(),
    {
        let ghost t = context;
        let ghost old_map = self.rules_map();
        let ghost e = exp@;
        let key = context_code(context);
        self.rules.insert(key, exp);
        assert forall|u: Context| #[trigger] self.rules@.contains_key(context_key(u)) && u != t
            implies old_map.contains_key(u) && self.rules@[context_key(u)]@ == old_map[u] by {
            if context_key(u) == key {
                lemma_context_key_injective(t, u);
            }
        }
        assert forall|u: Context| old_map.contains_key(u) implies #[trigger] self.rules@.contains_key(
            context_key(u),
        ) by {}
        assert(self.rules_map() =~= old_map.insert(t, e));
    }

    /// The rule for a context, if there is one.
    pub fn get_exp(&self, context: (Alphabet, Alphabet, Alphabet)) -> (r: Option<&Vec<Alphabet>>)
        ensures
            r.is_some() == self.rules_map().contains_key(context),
            r matches Some(v) ==> v@ == self.rules_map()[context],
    {
        let key = context_code(context);
        self.rules.get(&key)
    }

    pub fn get_current(&self) -> (c: &Vec<Alphabet>)
        ensures
            c@ == self.current_seq(),
    {
        &self.current
    }

    pub fn set_current(&mut self, current: Vec<Alphabet>)
        ensures
            final(self).current_seq() == current@,
            final(self).rules_map() == old(self).rules_map(),
            final(self).iteration_count() == old(self).iteration_count(),
            final(self).turtle_count() == old(self).turtle_count(),
    {
        self.current = current;
    }

    /// Apply `update_all` `n` times.
    pub fn update_n(&mut self, n: u32)
        ensures
            final(self).current_seq() == rewrite_n(old(self).rules_map(), old(self).current_seq(), n as nat),
            final(self).rules_map() == old(self).rules_map(),
            final(self).iteration_count() == old(self).iteration_count(),
            final(self).turtle_count() == old(self).turtle_count(),
    {
        let ghost rules = self.rules_map();
        let ghost start = self.current_seq();
        for i in 0..n
            invariant
                self.rules_map() == rules,
                self.current_seq() == rewrite_n(rules, start, i as nat),
                self.iteration_count() == old(self).iteration_count(),
                self.turtle_count() == old(self).turtle_count(),
        {
            self.update_all();
        }
    }

    /// One rewriting step of the whole string (see `expansion_at`).
    pub fn update_all(&mut self)
        ensures
            final(self).current_seq() == rewrite(old(self).rules_map(), old(self).current_seq()),
            final(self).rules_map() == old(self).rules_map(),
            final(self).iteration_count() == old(self).iteration_count(),
            final(self).turtle_count() == old(self).turtle_count(),
    {
        let ghost rules = self.rules_map();
        let ghost cur = self.current_seq();
        let mut updated: Vec<Alphabet> = Vec::new();
        let mut index: usize = 0;
        while index < self.current.len()
            invariant
                index <= self.current.len(),
                self.rules_map() == rules,
                self.current_seq() == cur,
                updated@ == rewrite_prefix(rules, cur, index as nat),
            decreases self.current.len() - index,
        {
            let mut pred = Alphabet::Blank;
            if index > 0 {
                pred = self.current[index - 1];
            }
            let target = self.current[index];
            let mut succ = Alphabet::Blank;
            if index < self.current.len() - 1 {
                succ = self.current[index + 1];
            }
            if let Some(exp) = self.get_exp((pred, target, succ)) {
                push_all(&mut updated, exp);
            } else if let Some(exp) = self.get_exp((Alphabet::Blank, target, succ)) {
                push_all(&mut updated, exp);
            } else if let Some(exp) = self.get_exp((pred, target, Alphabet::Blank)) {
                push_all(&mut updated, exp);
            } else if let Some(exp) = self.get_exp((Alphabet::Blank, target, Alphabet::Blank)) {
                push_all(&mut updated, exp);
            } else {
                updated.push(self.current[index]);
            }
            assert(updated@ =~= rewrite_prefix(rules, cur, (index + 1) as nat));
            index += 1;
        }
        self.current = updated;
    }
}

/// The word `iterations`.
pub open spec fn iterations_word() -> Seq<u8> {
    seq![('i' as u8), ('t' as u8), ('e' as u8), ('r' as u8), ('a' as u8), ('t' as u8), ('i' as u8), ('o' as u8), ('n' as u8), ('s' as u8)]
}

/// The word `turtles`.
pub open spec fn turtles_word() -> Seq<u8> {
    seq![('t' as u8), ('u' as u8), ('r' as u8), ('t' as u8), ('l' as u8), ('e' as u8), ('s' as u8)]
}

/// The keywords of an L-system file, each followed by a number.
pub open spec fn lsystem_keywords() -> Seq<Seq<u8>> {
    seq![iterations_word(), turtles_word()]
}

/// The letter a word stands for: the one its first character names, if any.
pub open spec fn word_letter(w: Seq<u8>) -> Option<Alphabet> {
    letter_of(w[0] as char)
}

/// The letters named by a list of words, words naming none left out.
pub open spec fn word_letters(ws: Seq<Seq<u8>>) -> Seq<Alphabet>
    decreases ws.len(),
{
    if ws.len() == 0 {
        Seq::empty()
    } else {
        let rest = word_letters(ws.drop_last());
        match word_letter(ws.last()) {
            Some(a) => rest.push(a),
            Option::None => rest,
        }
    }
}

/// The words from position `k` on (none when there are fewer than `k`).
pub open spec fn words_from(ws: Seq<Seq<u8>>, k: int) -> Seq<Seq<u8>> {
    if k <= ws.len() {
        ws.skip(k)
    } else {
        Seq::empty()
    }
}

/// The letter named by word `i`, `Blank` when there is no such word or it names none.
pub open spec fn letter_or_blank(ws: Seq<Seq<u8>>, i: int) -> Alphabet {
    if i < ws.len() {
        match word_letter(ws[i]) {
            Some(a) => a,
            Option::None => Alphabet::Blank,
        }
    } else {
        Alphabet::Blank
    }
}

/// What has been read of an L-system file: the `iterations` and `turtles`
/// settings, the rules, the start string, and whether the start line is still to come.
pub type LSystemReading = (u32, u32, Map<Context, Seq<Alphabet>>, Seq<Alphabet>, bool);

/// Reading one line of an L-system file.  Empty lines and lines starting with
/// `#` are skipped; `iterations N` and `turtles N` set a number when `N` parses;
/// the first other line is the start string, one letter per word; every later line is
/// a rule: the letters before, rewritten, after, then the expansion.
pub open spec fn lsystem_line_step(st: LSystemReading, l: Seq<u8>) -> LSystemReading {
    if l.len() == 0 || l[0] == ('#' as u8) {
        st
    } else {
        let ws = split_words(l);
        if ws[0] == iterations_word() {
            match parse_u32(ws[1]) {
                Some(n) => (n, st.1, st.2, st.3, st.4),
                Option::None => st,
            }
        } else if ws[0] == turtles_word() {
            match parse_u32(ws[1]) {
                Some(n) => (st.0, n, st.2, st.3, st.4),
                Option::None => st,
            }
        } else if st.4 {
            (st.0, st.1, st.2, word_letters(ws), false)
        } else {
            (
                st.0,
                st.1,
                st.2.insert(
                    (letter_or_blank(ws, 0), letter_or_blank(ws, 1), letter_or_blank(ws, 2)),
                    word_letters(words_from(ws, 3)),
                ),
                st.3,
                st.4,
            )
        }
    }
}

/// Reading the first `n` lines of an L-system file.
pub open spec fn lsystem_reading(ls: Seq<Seq<u8>>, n: nat) -> LSystemReading
    decreases n,
{
    if n == 0 {
        (2, 1, Map::empty(), Seq::empty(), true)
    } else {
        lsystem_line_step(lsystem_reading(ls, (n - 1) as nat), ls[n - 1])
    }
}

/// Reading a whole L-system file.
pub open spec fn lsystem_of_text(s: Seq<u8>) -> LSystemReading {
    lsystem_reading(split_lines(s), split_lines(s).len())
}

fn letters_of_words(ws: &Vec<Vec<u8>>, from: usize) -> (r: Vec<Alphabet>)
    requires
        forall|i: int| 0 <= i < ws@.len() ==> (#[trigger] ws@[i])@.len() > 0,
    ensures
        r@ == word_letters(words_from(views(ws@), from as int)),
{
    let mut r: Vec<Alphabet> = Vec::new();
    let mut i = from;
    if from >= ws.len() {
        assert(words_from(views(ws@), from as int) =~= Seq::<Seq<u8>>::empty());
        return r;
    }
    while i < ws.len()
        invariant
            from <= i <= ws.len(),
            forall|i: int| 0 <= i < ws@.len() ==> (#[trigger] ws@[i])@.len() > 0,
            r@ == word_letters(views(ws@).subrange(from as int, i as int)),
        decreases ws.len() - i,
    {
        let ghost part = views(ws@).subrange(from as int, i + 1);
        assert(part.drop_last() =~= views(ws@).subrange(from as int, i as int));
        assert(part.last() == ws@[i as int]@);
        if let Some(letter) = Alphabet::from_char(ws[i][0] as char) {
            r.push(letter);
        }
        i += 1;
    }
    assert(views(ws@).subrange(from as int, ws.len() as int) =~= views(ws@).skip(from as int));
    r
}

fn letter_or_blank_of(ws: &Vec<Vec<u8>>, i: usize) -> (a: Alphabet)
    requires
        forall|j: int| 0 <= j < ws@.len() ==> (#[trigger] ws@[j])@.len() > 0,
    ensures
        a == letter_or_blank(views(ws@), i as int),
{
    if i < ws.len() {
        if let Some(letter) = Alphabet::from_char(ws[i][0] as char) {
            return letter;
        }
    }
    Alphabet::Blank
}

proof fn lemma_words_nonempty(l: Seq<u8>, n: nat)
    requires
        n <= l.len(),
    ensures
        forall|i: int|
            0 <= i < words_state(l, n).0.len() ==> (#[trigger] words_state(l, n).0[i]).len() > 0,
    decreases n,
{
    if n > 0 {
        lemma_words_nonempty(l, (n - 1) as nat);
        let (done, cur) = words_state(l, (n - 1) as nat);
        if is_ascii_space(l[n - 1]) && cur.len() > 0 {
            assert forall|i: int| 0 <= i < done.push(cur).len() implies (#[trigger] done.push(
                cur,
            )[i]).len() > 0 by {
                if i < done.len() {
                    assert(done.push(cur)[i] == done[i]);
                }
            }
        }
    }
}

proof fn lemma_split_words_nonempty(l: Seq<u8>)
    ensures
        forall|i: int| 0 <= i < split_words(l).len() ==> (#[trigger] split_words(l)[i]).len() > 0,
{
    lemma_words_nonempty(l, l.len());
    let (done, cur) = words_state(l, l.len());
    if cur.len() > 0 {
        assert forall|i: int| 0 <= i < done.push(cur).len() implies (#[trigger] done.push(
            cur,
        )[i]).len() > 0 by {
            if i < done.len() {
                assert(done.push(cur)[i] == done[i]);
            }
        }
    }
}

impl LSystem {
    /// Whether an L-system file can be read without failing: each line that is
    /// not empty or a comment holds a word, and an `iterations` or `turtles`
    /// line holds a second word.
    pub fn text_ok(contents: &[u8]) -> (ok: bool)
        ensures
            ok == config_text_ok(contents@, lsystem_keywords()),
    {
        let iterations_kw: Vec<u8> = vec![('i' as u8), ('t' as u8), ('e' as u8), ('r' as u8), ('a' as u8), ('t' as u8), ('i' as u8), ('o' as u8), ('n' as u8), ('s' as u8)];
        let turtles_kw: Vec<u8> = vec![('t' as u8), ('u' as u8), ('r' as u8), ('t' as u8), ('l' as u8), ('e' as u8), ('s' as u8)];
        assert(iterations_kw@ =~= iterations_word());
        assert(turtles_kw@ =~= turtles_word());
        let keys = vec![iterations_kw, turtles_kw];
        assert(views(keys@) =~= lsystem_keywords());
        config_text_check(contents, &keys)
    }

    /// The L-system an L-system file describes (see `lsystem_line_step`).
    pub fn from_contents(contents: &[u8]) -> (l: LSystem)
        requires
            config_text_ok(contents@, lsystem_keywords()),
        ensures
            l.iteration_count() == lsystem_of_text(contents@).0,
            l.turtle_count() == lsystem_of_text(contents@).1,
            l.rules_map() == lsystem_of_text(contents@).2,
            l.current_seq() == lsystem_of_text(contents@).3,
    {
        let mut lsystem = LSystem::new();
        let mut start: Vec<Alphabet> = Vec::new();
        let mut first_line = true;
        let iterations_kw: Vec<u8> = vec![('i' as u8), ('t' as u8), ('e' as u8), ('r' as u8), ('a' as u8), ('t' as u8), ('i' as u8), ('o' as u8), ('n' as u8), ('s' as u8)];
        let turtles_kw: Vec<u8> = vec![('t' as u8), ('u' as u8), ('r' as u8), ('t' as u8), ('l' as u8), ('e' as u8), ('s' as u8)];
        assert(iterations_kw@ =~= iterations_word());
        assert(turtles_kw@ =~= turtles_word());
        let all = lines(contents);
        let ghost ls = views(all@);
        let mut li: usize = 0;
        while li < all.len()
            invariant
                li <= all.len(),
                ls == views(all@),
                ls == split_lines(contents@),
                config_text_ok(contents@, lsystem_keywords()),
                iterations_kw@ == iterations_word(),
                turtles_kw@ == turtles_word(),
                (
                    lsystem.iteration_count(),
                    lsystem.turtle_count(),
                    lsystem.rules_map(),
                    start@,
                    first_line,
                ) == lsystem_reading(ls, li as nat),
            decreases all.len() - li,
        {
            let line = &all[li];
            assert(line@ == ls[li as int]);
            if line.len() == 0 || line[0] == ('#' as u8) {
                li += 1;
                continue;
            }
            assert(crate::text::config_line_ok(ls[li as int], lsystem_keywords()));
            let ws = words(line);
            proof {
                lemma_split_words_nonempty(line@);
                assert forall|j: int| 0 <= j < ws@.len() implies (#[trigger] ws@[j])@.len() > 0 by {
                    assert(views(ws@)[j] == ws@[j]@);
                }
                assert(lsystem_keywords()[0] == iterations_word());
                assert(lsystem_keywords()[1] == turtles_word());
            }
            if bytes_eq(&ws[0], &iterations_kw) {
                assert(lsystem_keywords().contains(iterations_word()));
                if let Some(num) = parse_word_u32(&ws[1]) {
                    lsystem.iterations = num;
                }
            } else if bytes_eq(&ws[0], &turtles_kw) {
                assert(lsystem_keywords().contains(turtles_word()));
                if let Some(num) = parse_word_u32(&ws[1]) {
                    lsystem.turtles = num;
                }
            } else if first_line {
                start = letters_of_words(&ws, 0);
                assert(words_from(views(ws@), 0) =~= views(ws@));
                first_line = false;
            } else {
                let pred = letter_or_blank_of(&ws, 0);
                let target = letter_or_blank_of(&ws, 1);
                let succ = letter_or_blank_of(&ws, 2);
                let exp = letters_of_words(&ws, 3);
                lsystem.add_rule((pred, target, succ), exp);
            }
            li += 1;
        }
        lsystem.set_current(start);
        lsystem
    }
}

/// Rewriting `m` steps and then `n` more is rewriting `m + n` steps.
pub proof fn lemma_rewrite_n_compose(
    rules: Map<Context, Seq<Alphabet>>,
    cur: Seq<Alphabet>,
    m: nat,
    n: nat,
)
    ensures
        rewrite_n(rules, rewrite_n(rules, cur, m), n) == rewrite_n(rules, cur, m + n),
    decreases n,
{
    if n > 0 {
        lemma_rewrite_n_compose(rules, cur, m, (n - 1) as nat);
        assert((m + n - 1) as nat == (m + (n - 1)) as nat);
    }
}

proof fn lemma_rewrite_prefix_no_rules(cur: Seq<Alphabet>, n: nat)
    requires
        n <= cur.len(),
    ensures
        rewrite_prefix(Map::empty(), cur, n) == cur.take(n as int),
    decreases n,
{
    if n > 0 {
        lemma_rewrite_prefix_no_rules(cur, (n - 1) as nat);
        assert(cur.take(n as int) =~= cur.take(n - 1) + seq![cur[n - 1]]);
    }
}

/// With no rules a rewriting step leaves the string as it is.
pub proof fn lemma_rewrite_without_rules(cur: Seq<Alphabet>)
    ensures
        rewrite(Map::empty(), cur) == cur,
{
    lemma_rewrite_prefix_no_rules(cur, cur.len());
    assert(cur.take(cur.len() as int) =~= cur);
}


/// Every rule of `rules` is for a letter alone, whatever stands around it.
pub open spec fn context_free(rules: Map<Context, Seq<Alphabet>>) -> bool {
    forall|c: Context| #[trigger] rules.contains_key(c) ==> c.0 == Alphabet::Blank && c.2 == Alphabet::Blank
}

/// What a letter becomes under context-free rules.
pub open spec fn letter_expansion(rules: Map<Context, Seq<Alphabet>>, a: Alphabet) -> Seq<Alphabet> {
    if rules.contains_key((Alphabet::Blank, a, Alphabet::Blank)) {
        rules[(Alphabet::Blank, a, Alphabet::Blank)]
    } else {
        seq![a]
    }
}

proof fn lemma_expansion_context_free(rules: Map<Context, Seq<Alphabet>>, cur: Seq<Alphabet>, i: int)
    requires
        context_free(rules),
        0 <= i < cur.len(),
    ensures
        expansion_at(rules, cur, i) == letter_expansion(rules, cur[i]),
{
    let pred = if i > 0 { cur[i - 1] } else { Alphabet::Blank };
    let succ = if i < cur.len() - 1 { cur[i + 1] } else { Alphabet::Blank };
    if rules.contains_key((pred, cur[i], succ)) {
        assert(pred == Alphabet::Blank && succ == Alphabet::Blank);
    } else if rules.contains_key((Alphabet::Blank, cur[i], succ)) {
        assert(succ == Alphabet::Blank);
    } else if rules.contains_key((pred, cur[i], Alphabet::Blank)) {
        assert(pred == Alphabet::Blank);
    }
}

proof fn lemma_rewrite_prefix_front(rules: Map<Context, Seq<Alphabet>>, u: Seq<Alphabet>, v: Seq<Alphabet>, n: nat)
    requires
        context_free(rules),
        n <= u.len(),
    ensures
        rewrite_prefix(rules, u + v, n) == rewrite_prefix(rules, u, n),
    decreases n,
{
    if n > 0 {
        lemma_rewrite_prefix_front(rules, u, v, (n - 1) as nat);
        lemma_expansion_context_free(rules, u + v, n - 1);
        lemma_expansion_context_free(rules, u, n - 1);
        assert((u + v)[n - 1] == u[n - 1]);
    }
}

proof fn lemma_rewrite_prefix_back(rules: Map<Context, Seq<Alphabet>>, u: Seq<Alphabet>, v: Seq<Alphabet>, k: nat)
    requires
        context_free(rules),
        k <= v.len(),
    ensures
        rewrite_prefix(rules, u + v, u.len() + k) == rewrite(rules, u) + rewrite_prefix(rules, v, k),
    decreases k,
{
    if k == 0 {
        lemma_rewrite_prefix_front(rules, u, v, u.len());
        assert(rewrite(rules, u) + Seq::<Alphabet>::empty() =~= rewrite(rules, u));
    } else {
        lemma_rewrite_prefix_back(rules, u, v, (k - 1) as nat);
        let j = u.len() + k - 1;
        lemma_expansion_context_free(rules, u + v, j);
        lemma_expansion_context_free(rules, v, k - 1);
        assert((u + v)[j] == v[k - 1]);
        let e = expansion_at(rules, v, k - 1);
        assert(rewrite(rules, u) + rewrite_prefix(rules, v, (k - 1) as nat) + e =~= rewrite(rules, u) + (
        rewrite_prefix(rules, v, (k - 1) as nat) + e));
    }
}

/// With rules that each rewrite a letter whatever stands around it, a
/// rewriting step works letter by letter: rewriting `u` followed by `v` gives
/// the rewriting of `u` followed by that of `v`.
pub proof fn lemma_context_free_rewrite(rules: Map<Context, Seq<Alphabet>>, u: Seq<Alphabet>, v: Seq<Alphabet>)
    requires
        context_free(rules),
    ensures
        rewrite(rules, u + v) == rewrite(rules, u) + rewrite(rules, v),
{
    lemma_rewrite_prefix_back(rules, u, v, v.len());
}
} // verus!
