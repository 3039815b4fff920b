use vstd::prelude::*;

verus! {

/// Bytes that `split_ascii_whitespace` splits on: space, tab, line feed, form
/// feed and carriage return.
pub open spec fn is_ascii_space(b: u8) -> bool {
    b == 32 || b == 9 || b == 10 || b == 12 || b == 13
}

/// A line without the carriage return that ends it, if it has one.
pub open spec fn strip_cr(l: Seq<u8>) -> Seq<u8> {
    if l.len() > 0 && l.last() == 13 {
        l.drop_last()
    } else {
        l
    }
}

/// Reading the first `n` bytes of `s`: the lines finished by a line feed so far
/// (without their line ending) and the bytes of the line being read.
pub open spec fn lines_state(s: Seq<u8>, n: nat) -> (Seq<Seq<u8>>, Seq<u8>)
    decreases n,
{
    if n == 0 {
        (Seq::empty(), Seq::empty())
    } else {
        let (done, cur) = lines_state(s, (n - 1) as nat);
        if s[n - 1] == 10 {
            (done.push(strip_cr(cur)), Seq::empty())
        } else {
            (done, cur.push(s[n - 1]))
        }
    }
}

/// The lines of a text as `str::lines` gives them: split at each line feed, a
/// carriage return before a line feed dropped, no empty line after a final
/// line feed.
pub open spec fn split_lines(s: Seq<u8>) -> Seq<Seq<u8>> {
    let (done, cur) = lines_state(s, s.len());
    if cur.len() > 0 {
        done.push(cur)
    } else {
        done
    }
}

/// Reading the first `n` bytes of a line: the words finished so far and the
/// bytes of the word being read.
pub open spec fn words_state(l: Seq<u8>, n: nat) -> (Seq<Seq<u8>>, Seq<u8>)
    decreases n,
{
    if n == 0 {
        (Seq::empty(), Seq::empty())
    } else {
        let (done, cur) = words_state(l, (n - 1) as nat);
        if is_ascii_space(l[n - 1]) {
            if cur.len() > 0 {
                (done.push(cur), Seq::empty())
            } else {
                (done, Seq::empty())
            }
        } else {
            (done, cur.push(l[n - 1]))
        }
    }
}

/// The words of a line as `split_ascii_whitespace` gives them.
pub open spec fn split_words(l: Seq<u8>) -> Seq<Seq<u8>> {
    let (done, cur) = words_state(l, l.len());
    if cur.len() > 0 {
        done.push(cur)
    } else {
        done
    }
}

pub open spec fn is_digit(b: u8) -> bool {
    48 <= b <= 57
}

/// The number written by a string of decimal digits.
pub open spec fn digits_value(d: Seq<u8>) -> nat
    decreases d.len(),
{
    if d.len() == 0 {
        0
    } else {
        digits_value(d.drop_last()) * 10 + (d.last() - 48) as nat
    }
}

/// A word without its leading `+`, if it has one.
pub open spec fn digit_part(w: Seq<u8>) -> Seq<u8> {
    if w.len() > 0 && w[0] == 43 {
        w.skip(1)
    } else {
        w
    }
}

/// What `str::parse::<u32>` gives for a word: an optional `+`, then at least
/// one decimal digit and nothing else, of value at most `u32::MAX`.
pub open spec fn parse_u32(w: Seq<u8>) -> Option<u32> {
    let d = digit_part(w);
    if d.len() > 0 && (forall|i: int| 0 <= i < d.len() ==> is_digit(#[trigger] d[i]))
        && digits_value(d) <= u32::MAX {
        Some(digits_value(d) as u32)
    } else {
        None
    }
}

/// A configuration line whose processing cannot fail: it is empty, a comment,
/// or holds a word, and where that word is one of `keys` a second word too.
pub open spec fn config_line_ok(l: Seq<u8>, keys: Seq<Seq<u8>>) -> bool {
    l.len() > 0 && l[0] != 35 ==> {
        let ws = split_words(l);
        &&& ws.len() >= 1
        &&& keys.contains(ws[0]) ==> ws.len() >= 2
    }
}

/// Every line of a configuration text is `config_line_ok`.
pub open spec fn config_text_ok(s: Seq<u8>, keys: Seq<Seq<u8>>) -> bool {
    forall|i: int| 0 <= i < split_lines(s).len() ==> config_line_ok(#[trigger] split_lines(s)[i], keys)
}

/// The views of a vector of byte strings.
pub open spec fn views(v: Seq<Vec<u8>>) -> Seq<Seq<u8>> {
    v.map_values(|w: Vec<u8>| w@)
}

/// The lines of `s` (see `split_lines`).
pub fn lines(s: &[u8]) -> (r: Vec<Vec<u8>>)
    ensures
        views(r@) == split_lines(s@),
{
    let mut done: Vec<Vec<u8>> = Vec::new();
    let mut cur: Vec<u8> = Vec::new();
    let mut i: usize = 0;
    while i < s.len()
        invariant
            i <= s.len(),
            (views(done@), cur@) == lines_state(s@, i as nat),
        decreases s.len() - i,
    {
        let b = s[i];
        if b == 10 {
            if cur.len() > 0 && cur[cur.len() - 1] == 13 {
                cur.pop();
            }
            let ghost before = done@;
            done.push(cur);
            assert(views(done@) =~= views(before).push(done@.last()@));
            cur = Vec::new();
        } else {
            cur.push(b);
        }
        i += 1;
    }
    if cur.len() > 0 {
        let ghost before = done@;
        done.push(cur);
        assert(views(done@) =~= views(before).push(done@.last()@));
    }
    done
}

/// The words of a line (see `split_words`).
pub fn words(l: &Vec<u8>) -> (r: Vec<Vec<u8>>)
    ensures
        views(r@) == split_words(l@),
{
    let mut done: Vec<Vec<u8>> = Vec::new();
    let mut cur: Vec<u8> = Vec::new();
    let mut i: usize = 0;
    while i < l.len()
        invariant
            i <= l.len(),
            (views(done@), cur@) == words_state(l@, i as nat),
        decreases l.len() - i,
    {
        let b = l[i];
        if b == 32 || b == 9 || b == 10 || b == 12 || b == 13 {
            if cur.len() > 0 {
                let ghost before = done@;
                done.push(cur);
                assert(views(done@) =~= views(before).push(done@.last()@));
                cur = Vec::new();
            } else {
                cur = Vec::new();
            }
        } else {
            cur.push(b);
        }
        i += 1;
    }
    if cur.len() > 0 {
        let ghost before = done@;
        done.push(cur);
        assert(views(done@) =~= views(before).push(done@.last()@));
    }
    done
}

proof fn lemma_digits_value_grows(d: Seq<u8>, k: int)
    requires
        0 <= k <= d.len(),
        forall|i: int| 0 <= i < d.len() ==> is_digit(#[trigger] d[i]),
    ensures
        digits_value(d.take(k)) <= digits_value(d),
    decreases d.len() - k,
{
    if k < d.len() {
        let e = d.take(k + 1);
        assert(e.drop_last() =~= d.take(k));
        lemma_digits_value_grows(d, k + 1);
    } else {
        assert(d.take(k) =~= d);
    }
}

/// The value of a word as `str::parse::<u32>` reads it (see `parse_u32`).
pub fn parse_word_u32(w: &Vec<u8>) -> (r: Option<u32>)
    ensures
        r == parse_u32(w@),
{
    let mut start: usize = 0;
    if w.len() > 0 && w[0] == 43 {
        start = 1;
    }
    let ghost d = w@.skip(start as int);
    assert(d =~= digit_part(w@));
    if start >= w.len() {
        return None;
    }
    let mut acc: u64 = 0;
    let mut i: usize = start;
    while i < w.len()
        invariant
            start <= i <= w.len(),
            d == w@.skip(start as int),
            d == digit_part(w@),
            acc <= u32::MAX,
            forall|j: int| 0 <= j < i - start ==> is_digit(#[trigger] d[j]),
            acc == digits_value(d.take(i - start)),
        decreases w.len() - i,
    {
        let b = w[i];
        if b < 48 || b > 57 {
            assert(!is_digit(d[i - start]));
            assert(!(forall|j: int| 0 <= j < d.len() ==> is_digit(#[trigger] d[j])));
            return None;
        }
        let ghost k = i - start;
        assert(d.take(k + 1).drop_last() =~= d.take(k));
        acc = acc * 10 + (b - 48) as u64;
        i += 1;
        if acc > 4294967295 {
            assert(digits_value(d.take(i - start)) > u32::MAX);
            proof {
                if forall|j: int| 0 <= j < d.len() ==> is_digit(#[trigger] d[j]) {
                    lemma_digits_value_grows(d, i - start);
                    assert(digits_value(d) > u32::MAX);
                }
            }
            return None;
        }
    }
    assert(d.take(i - start) =~= d);
    Some(acc as u32)
}

/// Whether two byte strings are equal.
pub fn bytes_eq(a: &Vec<u8>, b: &Vec<u8>) -> (r: bool)
    ensures
        r == (a@ == b@),
{
    if a.len() != b.len() {
        return false;
    }
    let mut i: usize = 0;
    while i < a.len()
        invariant
            i <= a.len(),
            a.len() == b.len(),
            forall|j: int| 0 <= j < i ==> a@[j] == b@[j],
        decreases a.len() - i,
    {
        if a[i] != b[i] {
            return false;
        }
        i += 1;
    }
    assert(a@ =~= b@);
    true
}

/// The first position of `w` in `keys`, if any.
pub open spec fn key_position(keys: Seq<Seq<u8>>, w: Seq<u8>) -> Option<int> {
    if exists|i: int| 0 <= i < keys.len() && keys[i] == w {
        Some(choose|i: int| 0 <= i < keys.len() && keys[i] == w && forall|j: int| 0 <= j < i ==> keys[j] != w)
    } else {
        None
    }
}

/// Reading one line of a `key value` settings text: empty lines and lines
/// starting with `#` are skipped; a line whose first word is a key sets that
/// key's value when the second word parses as a `u32`.
pub open spec fn setting_step(vals: Seq<u32>, keys: Seq<Seq<u8>>, l: Seq<u8>) -> Seq<u32> {
    if l.len() == 0 || l[0] == 35 {
        vals
    } else {
        let ws = split_words(l);
        match key_position(keys, ws[0]) {
            Some(i) => match parse_u32(ws[1]) {
                Some(n) => vals.update(i, n),
                None => vals,
            },
            None => vals,
        }
    }
}

/// The values after reading the first `n` lines of a settings text.
pub open spec fn settings_after(vals: Seq<u32>, keys: Seq<Seq<u8>>, ls: Seq<Seq<u8>>, n: nat) -> Seq<u32>
    decreases n,
{
    if n == 0 {
        vals
    } else {
        setting_step(settings_after(vals, keys, ls, (n - 1) as nat), keys, ls[n - 1])
    }
}

fn find_key(keys: &Vec<Vec<u8>>, w: &Vec<u8>) -> (r: Option<usize>)
    ensures
        match r {
            Some(i) => {
                &&& i < keys.len()
                &&& views(keys@)[i as int] == w@
                &&& key_position(views(keys@), w@) == Some(i as int)
            },
            None => {
                &&& !views(keys@).contains(w@)
                &&& key_position(views(keys@), w@) is None
            },
        },
{
    let ghost ks = views(keys@);
    let mut i: usize = 0;
    while i < keys.len()
        invariant
            i <= keys.len(),
            ks == views(keys@),
            forall|j: int| 0 <= j < i ==> ks[j] != w@,
        decreases keys.len() - i,
    {
        if bytes_eq(&keys[i], w) {
            proof {
                assert(ks[i as int] == keys@[i as int]@);
                let c = choose|c: int| 0 <= c < ks.len() && ks[c] == w@ && forall|j: int| 0 <= j < c ==> ks[j] != w@;
                if c < i {
                } else if c > i {
                    assert(ks[i as int] == w@);
                }
            }
            return Some(i);
        }
        proof {
            assert(ks[i as int] == keys@[i as int]@);
        }
        i += 1;
    }
    None
}

/// Read one line of a settings text into `values` (see `setting_step`).
fn read_setting_line(line: &Vec<u8>, keys: &Vec<Vec<u8>>, values: &mut Vec<u32>)
    requires
        config_line_ok(line@, views(keys@)),
        old(values).len() == keys.len(),
    ensures
        final(values)@ == setting_step(old(values)@, views(keys@), line@),
        final(values).len() == old(values).len(),
{
    let ghost ks = views(keys@);
    if line.len() == 0 || line[0] == 35 {
        return;
    }
    let ws = words(line);
    assert(views(ws@)[0] == ws@[0]@);
    match find_key(keys, &ws[0]) {
        Some(i) => {
            proof {
                assert(ks.contains(ws@[0]@));
                assert(views(ws@)[1] == ws@[1]@);
            }
            if let Some(num) = parse_word_u32(&ws[1]) {
                values.set(i, num);
            }
        },
        None => {},
    }
}

/// Read a `key value` settings text into `values` (see `setting_step`):
/// `values[i]` is the setting named `keys[i]`.
pub fn read_settings(contents: &[u8], keys: &Vec<Vec<u8>>, values: &mut Vec<u32>)
    requires
        config_text_ok(contents@, views(keys@)),
        old(values).len() == keys.len(),
    ensures
        final(values)@ == settings_after(old(values)@, views(keys@), split_lines(contents@), split_lines(contents@).len()),
        final(values).len() == old(values).len(),
{
    let all = lines(contents);
    let ghost ls = views(all@);
    let ghost ks = views(keys@);
    let mut li: usize = 0;
    while li < all.len()
        invariant
            li <= all.len(),
            ls == views(all@),
            ls == split_lines(contents@),
            ks == views(keys@),
            config_text_ok(contents@, ks),
            values.len() == keys.len(),
            values@ == settings_after(old(values)@, ks, ls, li as nat),
        decreases all.len() - li,
    {
        assert(all@[li as int]@ == ls[li as int]);
        assert(config_line_ok(ls[li as int], ks));
        read_setting_line(&all[li], keys, values);
        li += 1;
    }
}

/// Whether a settings text can be read without failing (see `config_text_ok`).
pub fn config_text_check(contents: &[u8], keys: &Vec<Vec<u8>>) -> (ok: bool)
    ensures
        ok == config_text_ok(contents@, views(keys@)),
{
    let all = lines(contents);
    let ghost ls = views(all@);
    let ghost ks = views(keys@);
    let mut li: usize = 0;
    while li < all.len()
        invariant
            li <= all.len(),
            ls == views(all@),
            ls == split_lines(contents@),
            ks == views(keys@),
            forall|j: int| 0 <= j < li ==> config_line_ok(#[trigger] ls[j], ks),
        decreases all.len() - li,
    {
        let line = &all[li];
        assert(line@ == ls[li as int]);
        if line.len() > 0 && line[0] != 35 {
            let ws = words(line);
            if ws.len() == 0 {
                assert(!config_line_ok(ls[li as int], ks));
                return false;
            }
            assert(views(ws@)[0] == ws@[0]@);
            if let Some(i) = find_key(keys, &ws[0]) {
                if ws.len() < 2 {
                    proof {
                        assert(ks.contains(ws@[0]@));
                        assert(!config_line_ok(ls[li as int], ks));
                    }
                    return false;
                }
            }
        }
        li += 1;
    }
    true
}

} // verus!
