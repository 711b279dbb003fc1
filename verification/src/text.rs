//! Character-sequence utilities shared by the renderer: whitespace
//! classification, word splitting, whitespace normalization, repetition,
//! decimal rendering of list counters, and end trimming.

use vstd::prelude::*;

verus! {

/// The whitespace characters the formatter normalizes.
pub open spec fn is_ws(c: char) -> bool {
    c == ' ' || c == '\t' || c == '\n' || c == '\r'
}

/// Executable twin of `is_ws`.
pub fn ws_char(c: char) -> (r: bool)
    ensures
        r == is_ws(c),
{
    c == ' ' || c == '\t' || c == '\n' || c == '\r'
}

/// True when every character of `s` is whitespace.
pub open spec fn ws_only(s: Seq<char>) -> bool {
    forall|i: int| 0 <= i < s.len() ==> is_ws(#[trigger] s[i])
}

/// Index of the first whitespace character at or after `i`, or `s.len()`
/// if the rest of `s` is one word.
pub open spec fn word_end(s: Seq<char>, i: int) -> int
    decreases s.len() - i,
{
    if i < 0 {
        0
    } else if i >= s.len() || is_ws(s[i]) {
        i
    } else {
        word_end(s, i + 1)
    }
}

pub proof fn lemma_word_end_bounds(s: Seq<char>, i: int)
    requires
        0 <= i <= s.len(),
    ensures
        i <= word_end(s, i) <= s.len(),
        i < s.len() && !is_ws(s[i]) ==> word_end(s, i) > i,
        forall|j: int| i <= j < word_end(s, i) ==> !is_ws(#[trigger] s[j]),
        word_end(s, i) < s.len() ==> is_ws(s[word_end(s, i)]),
    decreases s.len() - i,
{
    if i < s.len() && !is_ws(s[i]) {
        lemma_word_end_bounds(s, i + 1);
    }
}

/// The words of `s` from position `i` on: maximal runs of non-whitespace.
pub open spec fn words_from(s: Seq<char>, i: int) -> Seq<Seq<char>>
    decreases s.len() - i,
{
    if i < 0 || i >= s.len() {
        Seq::empty()
    } else if is_ws(s[i]) {
        words_from(s, i + 1)
    } else {
        let j = word_end(s, i);
        let next = if i < j && j <= s.len() {
            j
        } else {
            i + 1
        };
        seq![s.subrange(i, j)] + words_from(s, next)
    }
}

/// The words of `s`: what splitting on whitespace yields, empty pieces left out.
pub open spec fn words_of(s: Seq<char>) -> Seq<Seq<char>> {
    words_from(s, 0)
}

/// A word as the splitter produces them: nonempty, no whitespace inside.
pub open spec fn good_word(w: Seq<char>) -> bool {
    w.len() > 0 && forall|j: int| 0 <= j < w.len() ==> !is_ws(#[trigger] w[j])
}

/// Every word is nonempty and free of whitespace.
pub proof fn lemma_words_from_wf(s: Seq<char>, i: int)
    requires
        0 <= i,
    ensures
        forall|k: int|
            0 <= k < words_from(s, i).len() ==> good_word(#[trigger] words_from(s, i)[k]),
    decreases s.len() - i,
{
    if i >= s.len() {
        assert(words_from(s, i).len() == 0);
    } else if is_ws(s[i]) {
        lemma_words_from_wf(s, i + 1);
        assert(words_from(s, i) == words_from(s, i + 1));
        assert forall|k: int|
            0 <= k < words_from(s, i).len() implies good_word(
            #[trigger] words_from(s, i)[k],
        ) by {
            assert(words_from(s, i)[k] == words_from(s, i + 1)[k]);
        }
    } else {
        lemma_word_end_bounds(s, i);
        let j = word_end(s, i);
        lemma_words_from_wf(s, j);
        let w0 = s.subrange(i, j);
        assert(words_from(s, i) == seq![w0] + words_from(s, j));
        assert(good_word(w0)) by {
            assert(forall|j2: int| 0 <= j2 < w0.len() ==> #[trigger] w0[j2] == s[i + j2]);
        }
        assert forall|k: int|
            0 <= k < words_from(s, i).len() implies good_word(
            #[trigger] words_from(s, i)[k],
        ) by {
            if k > 0 {
                assert(words_from(s, i)[k] == words_from(s, j)[k - 1]);
            }
        }
    }
}

/// A whitespace-only sequence has no words.
pub proof fn lemma_ws_only_no_words(s: Seq<char>, i: int)
    requires
        0 <= i,
        ws_only(s),
    ensures
        words_from(s, i).len() == 0,
    decreases s.len() - i,
{
    if i < s.len() {
        lemma_ws_only_no_words(s, i + 1);
    }
}

pub proof fn lemma_word_end_shift(a: Seq<char>, b: Seq<char>, i: int)
    requires
        0 <= i <= b.len(),
    ensures
        word_end(a + b, a.len() + i) == a.len() + word_end(b, i),
    decreases b.len() - i,
{
    let s = a + b;
    if i >= b.len() {
    } else if is_ws(b[i]) {
        assert(s[a.len() + i] == b[i]);
    } else {
        assert(s[a.len() + i] == b[i]);
        lemma_word_end_shift(a, b, i + 1);
    }
}

pub proof fn lemma_words_from_shift(a: Seq<char>, b: Seq<char>, i: int)
    requires
        0 <= i,
    ensures
        words_from(a + b, a.len() + i) == words_from(b, i),
    decreases b.len() - i,
{
    let s = a + b;
    if i >= b.len() {
    } else if is_ws(b[i]) {
        assert(s[a.len() + i] == b[i]);
        lemma_words_from_shift(a, b, i + 1);
    } else {
        assert(s[a.len() + i] == b[i]);
        lemma_word_end_bounds(b, i);
        lemma_word_end_shift(a, b, i);
        let j = word_end(b, i);
        assert(word_end(s, a.len() + i) == a.len() + j);
        assert(s.subrange(a.len() + i, a.len() + j) =~= b.subrange(i, j));
        lemma_words_from_shift(a, b, j);
        assert(words_from(s, a.len() + i) == seq![s.subrange(a.len() + i, a.len() + j)]
            + words_from(s, a.len() + j));
        assert(words_from(b, i) == seq![b.subrange(i, j)] + words_from(b, j));
    }
}

pub proof fn lemma_word_end_within(w: Seq<char>, t: Seq<char>, i: int)
    requires
        0 <= i <= w.len(),
        good_word(w),
        t.len() == 0 || is_ws(t[0]),
    ensures
        word_end(w + t, i) == w.len(),
    decreases w.len() - i,
{
    let s = w + t;
    if i < w.len() {
        assert(s[i] == w[i]);
        assert(!is_ws(w[i]));
        lemma_word_end_within(w, t, i + 1);
    } else {
        if t.len() > 0 {
            assert(s[i] == t[0]);
        }
    }
}

/// Splitting a word followed by whitespace (or nothing) yields that
/// word and then whatever the rest splits to.
pub proof fn lemma_words_of_prepend_word(w: Seq<char>, t: Seq<char>)
    requires
        good_word(w),
        t.len() == 0 || is_ws(t[0]),
    ensures
        words_of(w + t) == seq![w] + words_of(t),
{
    let s = w + t;
    assert(s[0] == w[0]);
    assert(!is_ws(s[0]));
    lemma_word_end_within(w, t, 0);
    assert(word_end(s, 0) == w.len());
    assert(s.subrange(0, w.len() as int) =~= w);
    lemma_words_from_shift(w, t, 0);
    assert(words_from(s, 0) == seq![s.subrange(0, w.len() as int)] + words_from(s, w.len() as int));
}

/// A leading space never contributes a word.
pub proof fn lemma_words_of_skip_space(t: Seq<char>)
    ensures
        words_of(seq![' '] + t) == words_of(t),
{
    let s = seq![' '] + t;
    assert(is_ws(s[0]));
    lemma_words_from_shift(seq![' '], t, 0);
    assert(words_from(s, 0) == words_from(s, 1));
}

pub proof fn lemma_join_from_shape(ws: Seq<Seq<char>>, k: int)
    requires
        0 <= k <= ws.len(),
        forall|m: int| 0 <= m < ws.len() ==> good_word(#[trigger] ws[m]),
    ensures
        words_of(join_from(ws, k)) == ws.skip(k),
    decreases ws.len() - k,
{
    if k >= ws.len() {
        assert(join_from(ws, k) == Seq::<char>::empty());
        assert(ws.skip(k) =~= Seq::<Seq<char>>::empty());
    } else {
        lemma_join_from_shape(ws, k + 1);
        let rest = join_from(ws, k + 1);
        assert(join_from(ws, k) == seq![' '] + ws[k] + rest);
        assert(seq![' '] + ws[k] + rest =~= seq![' '] + (ws[k] + rest));
        lemma_words_of_skip_space(ws[k] + rest);
        assert(rest.len() == 0 || is_ws(rest[0])) by {
            if k + 1 < ws.len() {
                assert(rest[0] == ' ');
            }
        }
        lemma_words_of_prepend_word(ws[k], rest);
        assert(seq![ws[k]] + ws.skip(k + 1) =~= ws.skip(k));
    }
}

/// Splitting joined good words gives the words back.
pub proof fn lemma_words_of_join(ws: Seq<Seq<char>>)
    requires
        forall|m: int| 0 <= m < ws.len() ==> good_word(#[trigger] ws[m]),
    ensures
        words_of(join_words(ws)) == ws,
{
    if ws.len() == 0 {
        assert(words_of(Seq::<char>::empty()) == Seq::<Seq<char>>::empty());
    } else {
        let rest = join_from(ws, 1);
        lemma_join_from_shape(ws, 1);
        assert(rest.len() == 0 || is_ws(rest[0])) by {
            if ws.len() > 1 {
                assert(rest[0] == ' ');
            }
        }
        lemma_words_of_prepend_word(ws[0], rest);
        assert(seq![ws[0]] + ws.skip(1) =~= ws);
    }
}

/// Whitespace normalization is stable: normalizing already-normalized
/// text changes nothing.
pub proof fn lemma_normalize_idempotent(s: Seq<char>)
    ensures
        normalize_ws(normalize_ws(s)) == normalize_ws(s),
{
    lemma_words_from_wf(s, 0);
    lemma_words_of_join(words_of(s));
}

/// The tail of a joining: a space and a word for each entry from `k` on.
pub open spec fn join_from(ws: Seq<Seq<char>>, k: int) -> Seq<char>
    decreases ws.len() - k,
{
    if k < 0 || k >= ws.len() {
        Seq::empty()
    } else {
        seq![' '] + ws[k] + join_from(ws, k + 1)
    }
}

/// The words joined back together with single spaces.
pub open spec fn join_words(ws: Seq<Seq<char>>) -> Seq<char> {
    if ws.len() == 0 {
        Seq::empty()
    } else {
        ws[0] + join_from(ws, 1)
    }
}

/// `s` with runs of whitespace collapsed to single spaces and both ends trimmed.
pub open spec fn normalize_ws(s: Seq<char>) -> Seq<char> {
    join_words(words_of(s))
}

/// `s` repeated `n` times.
pub open spec fn repeat_seq(s: Seq<char>, n: nat) -> Seq<char>
    decreases n,
{
    if n == 0 {
        Seq::empty()
    } else {
        repeat_seq(s, (n - 1) as nat) + s
    }
}

/// Appends `s` repeated `n` times to `out`.
pub fn push_repeat(out: &mut Vec<char>, s: &Vec<char>, n: usize)
    ensures
        final(out)@ == old(out)@ + repeat_seq(s@, n as nat),
{
    let mut k: usize = 0;
    while k < n
        invariant
            k <= n,
            out@ == old(out)@ + repeat_seq(s@, k as nat),
        decreases n - k,
    {
        let mut i: usize = 0;
        while i < s.len()
            invariant
                i <= s.len(),
                out@ == old(out)@ + repeat_seq(s@, k as nat) + s@.take(i as int),
            decreases s.len() - i,
        {
            out.push(s[i]);
            i += 1;
            assert(s@.take(i as int) == s@.take(i - 1).push(s@[i - 1]));
        }
        assert(s@.take(s.len() as int) == s@);
        k += 1;
        assert(repeat_seq(s@, k as nat) == repeat_seq(s@, (k - 1) as nat) + s@);
        assert(out@ == old(out)@ + repeat_seq(s@, k as nat));
    }
}

/// The decimal digits of `n`, most significant first.
pub open spec fn dec_digits(n: nat) -> Seq<char>
    decreases n,
{
    if n < 10 {
        seq![digit_char(n)]
    } else {
        dec_digits(n / 10) + seq![digit_char(n % 10)]
    }
}

/// The character for a single decimal digit.
pub open spec fn digit_char(n: nat) -> char {
    if n == 0 {
        '0'
    } else if n == 1 {
        '1'
    } else if n == 2 {
        '2'
    } else if n == 3 {
        '3'
    } else if n == 4 {
        '4'
    } else if n == 5 {
        '5'
    } else if n == 6 {
        '6'
    } else if n == 7 {
        '7'
    } else if n == 8 {
        '8'
    } else {
        '9'
    }
}

fn digit_char_exec(n: u64) -> (r: char)
    requires
        n < 10,
    ensures
        r == digit_char(n as nat),
{
    if n == 0 {
        '0'
    } else if n == 1 {
        '1'
    } else if n == 2 {
        '2'
    } else if n == 3 {
        '3'
    } else if n == 4 {
        '4'
    } else if n == 5 {
        '5'
    } else if n == 6 {
        '6'
    } else if n == 7 {
        '7'
    } else if n == 8 {
        '8'
    } else {
        '9'
    }
}

/// Appends the decimal rendering of `n` to `out`.
pub fn push_dec(out: &mut Vec<char>, n: u64)
    ensures
        final(out)@ == old(out)@ + dec_digits(n as nat),
    decreases n,
{
    if n < 10 {
        out.push(digit_char_exec(n));
    } else {
        push_dec(out, n / 10);
        out.push(digit_char_exec(n % 10));
    }
}

/// `s` with trailing whitespace removed.
pub open spec fn trim_end_spec(s: Seq<char>) -> Seq<char>
    decreases s.len(),
{
    if s.len() == 0 {
        s
    } else if is_ws(s.last()) {
        trim_end_spec(s.drop_last())
    } else {
        s
    }
}

pub proof fn lemma_trim_end_keeps_prefix(s: Seq<char>, i: int)
    requires
        0 <= i < s.len(),
        !is_ws(s[i]),
    ensures
        i < trim_end_spec(s).len() <= s.len(),
        trim_end_spec(s) == s.take(trim_end_spec(s).len() as int),
    decreases s.len(),
{
    if s.len() > 0 && is_ws(s.last()) {
        lemma_trim_end_keeps_prefix(s.drop_last(), i);
        let t = trim_end_spec(s);
        assert(t == trim_end_spec(s.drop_last()));
        assert(t =~= s.take(t.len() as int));
    } else {
        assert(trim_end_spec(s) == s);
        assert(s =~= s.take(s.len() as int));
    }
}

/// Removes trailing whitespace from `out`.
pub fn trim_end_chars(out: &mut Vec<char>)
    ensures
        final(out)@ == trim_end_spec(old(out)@),
{
    let ghost s0 = out@;
    proof {
        assert(s0.take(s0.len() as int) =~= s0);
    }
    let mut k: usize = out.len();
    while k > 0 && ws_char(out[k - 1])
        invariant
            k <= out.len(),
            out@ == s0,
            trim_end_spec(s0) == trim_end_spec(s0.take(k as int)),
        decreases k,
    {
        proof {
            assert(s0.take(k as int).last() == s0[k - 1]);
            assert(s0.take(k as int).drop_last() =~= s0.take(k - 1));
        }
        k -= 1;
    }
    proof {
        if k > 0 {
            assert(s0.take(k as int).last() == s0[k - 1]);
            assert(trim_end_spec(s0.take(k as int)) == s0.take(k as int));
        } else {
            assert(s0.take(0) =~= Seq::<char>::empty());
        }
    }
    out.truncate(k);
}

/// Executable check that `v` is all whitespace.
pub fn ws_only_exec(v: &Vec<char>) -> (r: bool)
    ensures
        r == ws_only(v@),
{
    let mut i: usize = 0;
    while i < v.len()
        invariant
            i <= v@.len(),
            forall|j: int| 0 <= j < i ==> is_ws(#[trigger] v@[j]),
        decreases v@.len() - i,
    {
        if !ws_char(v[i]) {
            return false;
        }
        i += 1;
    }
    true
}

/// Relies on str::chars: yields exactly the characters of the slice, in
/// order, which is the slice's view.
#[verifier::external_body]
pub fn chars_vec(s: &str) -> (r: Vec<char>)
    ensures
        r@ == s@,
{
    s.chars().collect()
}

/// Relies on String's FromIterator: builds the string holding exactly
/// these characters, in order.
#[verifier::external_body]
pub fn string_of(v: &Vec<char>) -> (r: String)
    ensures
        r@ == v@,
{
    v.iter().collect()
}

/// Appends all of `v` to `out`.
pub fn push_chars(out: &mut Vec<char>, v: &Vec<char>)
    ensures
        final(out)@ == old(out)@ + v@,
{
    let mut i: usize = 0;
    while i < v.len()
        invariant
            i <= v@.len(),
            out@ == old(out)@ + v@.take(i as int),
        decreases v@.len() - i,
    {
        out.push(v[i]);
        i += 1;
        proof {
            assert(v@.take(i as int) =~= v@.take(i - 1).push(v@[i - 1]));
        }
    }
    proof {
        assert(v@.take(v@.len() as int) =~= v@);
    }
}

/// Appends all characters of `s` to `out`.
pub fn push_str_chars(out: &mut Vec<char>, s: &str)
    ensures
        final(out)@ == old(out)@ + s@,
{
    let cs = chars_vec(s);
    push_chars(out, &cs);
}

/// The character sequences of a vector of words.
pub open spec fn vecs_view(ws: Seq<Vec<char>>) -> Seq<Seq<char>> {
    ws.map_values(|w: Vec<char>| w@)
}

/// Copies `v[i..j]` out into a fresh vector.
pub fn subvec(v: &Vec<char>, i: usize, j: usize) -> (r: Vec<char>)
    requires
        i <= j <= v@.len(),
    ensures
        r@ == v@.subrange(i as int, j as int),
{
    let mut r: Vec<char> = Vec::new();
    let mut k: usize = i;
    while k < j
        invariant
            i <= k <= j <= v@.len(),
            r@ == v@.subrange(i as int, k as int),
        decreases j - k,
    {
        r.push(v[k]);
        k += 1;
        proof {
            assert(v@.subrange(i as int, k as int) =~= v@.subrange(i as int, k - 1).push(
                v@[k - 1],
            ));
        }
    }
    r
}

/// Scans past the word starting at `i`.
fn word_end_exec(v: &Vec<char>, i: usize) -> (r: usize)
    requires
        i <= v@.len(),
    ensures
        r == word_end(v@, i as int),
        i <= r <= v@.len(),
{
    let mut j: usize = i;
    while j < v.len() && !ws_char(v[j])
        invariant
            i <= j <= v@.len(),
            word_end(v@, i as int) == word_end(v@, j as int),
        decreases v@.len() - j,
    {
        j += 1;
    }
    proof {
        lemma_word_end_bounds(v@, j as int);
    }
    j
}

/// Splits `v` into its whitespace-separated words.
pub fn split_words(v: &Vec<char>) -> (r: Vec<Vec<char>>)
    ensures
        vecs_view(r@) == words_of(v@),
{
    let mut r: Vec<Vec<char>> = Vec::new();
    let mut i: usize = 0;
    while i < v.len()
        invariant
            i <= v@.len(),
            words_of(v@) == vecs_view(r@) + words_from(v@, i as int),
        decreases v@.len() - i,
    {
        if ws_char(v[i]) {
            i += 1;
        } else {
            proof {
                lemma_word_end_bounds(v@, i as int);
            }
            let j = word_end_exec(v, i);
            let w = subvec(v, i, j);
            proof {
                assert(words_from(v@, i as int) == seq![v@.subrange(i as int, j as int)]
                    + words_from(v@, j as int));
                assert(vecs_view(r@.push(w)) =~= vecs_view(r@) + seq![w@]);
                assert((vecs_view(r@) + seq![w@]) + words_from(v@, j as int) =~= vecs_view(r@)
                    + (seq![w@] + words_from(v@, j as int)));
            }
            r.push(w);
            i = j;
        }
    }
    proof {
        assert(vecs_view(r@) + words_from(v@, i as int) =~= vecs_view(r@));
    }
    r
}

/// Appends the words joined by single spaces.
pub fn push_joined(out: &mut Vec<char>, ws: &Vec<Vec<char>>)
    ensures
        final(out)@ == old(out)@ + join_words(vecs_view(ws@)),
{
    let ghost full = vecs_view(ws@);
    if ws.len() == 0 {
        proof {
            assert(out@ =~= out@ + join_words(full));
        }
        return ;
    }
    let mut k: usize = 0;
    while k < ws.len()
        invariant
            k <= ws@.len(),
            ws@.len() > 0,
            full == vecs_view(ws@),
            k == 0 ==> out@ == old(out)@,
            k > 0 ==> out@ + join_from(full, k as int) == old(out)@ + join_words(full),
        decreases ws@.len() - k,
    {
        let ghost pre = out@;
        if k > 0 {
            out.push(' ');
        }
        let w = &ws[k];
        let mut t: usize = 0;
        while t < w.len()
            invariant
                t <= w@.len(),
                k < ws@.len(),
                full == vecs_view(ws@),
                w == ws@[k as int],
                k == 0 ==> out@ == pre + w@.take(t as int),
                k > 0 ==> out@ == pre + seq![' '] + w@.take(t as int),
            decreases w@.len() - t,
        {
            out.push(w[t]);
            t += 1;
            proof {
                assert(w@.take(t as int) =~= w@.take(t - 1).push(w@[t - 1]));
            }
        }
        proof {
            assert(w@.take(w@.len() as int) =~= w@);
            assert(full[k as int] == w@);
        }
        k += 1;
        proof {
            if k == 1 {
                assert(out@ == pre + full[0]);
                assert(out@ + join_from(full, 1) =~= old(out)@ + (full[0] + join_from(full, 1)));
            } else {
                assert(out@ == pre + seq![' '] + full[k - 1]);
                assert(join_from(full, k - 1) == seq![' '] + full[k - 1] + join_from(
                    full,
                    k as int,
                ));
                assert(out@ + join_from(full, k as int) =~= pre + join_from(full, k - 1));
            }
        }
    }
    proof {
        assert(join_from(full, ws@.len() as int) == Seq::<char>::empty());
        assert(out@ + join_from(full, ws@.len() as int) =~= out@);
    }
}

/// Appends `text` with its whitespace normalized: runs collapsed to one
/// space, leading and trailing whitespace dropped.
pub fn push_normalized(out: &mut Vec<char>, text: &Vec<char>)
    ensures
        final(out)@ == old(out)@ + normalize_ws(text@),
{
    let ws = split_words(text);
    push_joined(out, &ws);
}

/// ASCII lowercase folding of one character.
pub open spec fn lower_char(c: char) -> char {
    if c == 'A' {
        'a'
    } else if c == 'B' {
        'b'
    } else if c == 'C' {
        'c'
    } else if c == 'D' {
        'd'
    } else if c == 'E' {
        'e'
    } else if c == 'F' {
        'f'
    } else if c == 'G' {
        'g'
    } else if c == 'H' {
        'h'
    } else if c == 'I' {
        'i'
    } else if c == 'J' {
        'j'
    } else if c == 'K' {
        'k'
    } else if c == 'L' {
        'l'
    } else if c == 'M' {
        'm'
    } else if c == 'N' {
        'n'
    } else if c == 'O' {
        'o'
    } else if c == 'P' {
        'p'
    } else if c == 'Q' {
        'q'
    } else if c == 'R' {
        'r'
    } else if c == 'S' {
        's'
    } else if c == 'T' {
        't'
    } else if c == 'U' {
        'u'
    } else if c == 'V' {
        'v'
    } else if c == 'W' {
        'w'
    } else if c == 'X' {
        'x'
    } else if c == 'Y' {
        'y'
    } else if c == 'Z' {
        'z'
    } else {
        c
    }
}

/// ASCII lowercase folding of a sequence.
pub open spec fn lower_seq(s: Seq<char>) -> Seq<char> {
    s.map_values(|c: char| lower_char(c))
}

/// Executable twin of `lower_char`.
pub fn lower_char_exec(c: char) -> (r: char)
    ensures
        r == lower_char(c),
{
    if c == 'A' {
        'a'
    } else if c == 'B' {
        'b'
    } else if c == 'C' {
        'c'
    } else if c == 'D' {
        'd'
    } else if c == 'E' {
        'e'
    } else if c == 'F' {
        'f'
    } else if c == 'G' {
        'g'
    } else if c == 'H' {
        'h'
    } else if c == 'I' {
        'i'
    } else if c == 'J' {
        'j'
    } else if c == 'K' {
        'k'
    } else if c == 'L' {
        'l'
    } else if c == 'M' {
        'm'
    } else if c == 'N' {
        'n'
    } else if c == 'O' {
        'o'
    } else if c == 'P' {
        'p'
    } else if c == 'Q' {
        'q'
    } else if c == 'R' {
        'r'
    } else if c == 'S' {
        's'
    } else if c == 'T' {
        't'
    } else if c == 'U' {
        'u'
    } else if c == 'V' {
        'v'
    } else if c == 'W' {
        'w'
    } else if c == 'X' {
        'x'
    } else if c == 'Y' {
        'y'
    } else if c == 'Z' {
        'z'
    } else {
        c
    }
}

/// Case-insensitive (ASCII) comparison of `s` against a lowercase key.
pub fn eq_ignore_case(s: &str, key: &str) -> (r: bool)
    ensures
        r == (lower_seq(s@) == key@),
{
    let sc = chars_vec(s);
    let kc = chars_vec(key);
    if sc.len() != kc.len() {
        proof {
            assert(lower_seq(s@).len() == s@.len());
        }
        return false;
    }
    let mut i: usize = 0;
    while i < sc.len()
        invariant
            i <= sc@.len(),
            sc@ == s@,
            kc@ == key@,
            sc@.len() == kc@.len(),
            forall|j: int| 0 <= j < i ==> lower_seq(s@)[j] == key@[j],
        decreases sc@.len() - i,
    {
        if lower_char_exec(sc[i]) != kc[i] {
            proof {
                assert(lower_seq(s@)[i as int] != key@[i as int]);
            }
            return false;
        }
        i += 1;
    }
    proof {
        assert(lower_seq(s@) =~= key@);
    }
    true
}

/// Index of the first `sep` at or after `i`, or `s.len()` if none.
pub open spec fn piece_end(s: Seq<char>, i: int, sep: char) -> int
    decreases s.len() - i,
{
    if i < 0 {
        0
    } else if i >= s.len() || s[i] == sep {
        i
    } else {
        piece_end(s, i + 1, sep)
    }
}

pub proof fn lemma_piece_end_bounds(s: Seq<char>, i: int, sep: char)
    requires
        0 <= i <= s.len(),
    ensures
        i <= piece_end(s, i, sep) <= s.len(),
        i < s.len() && s[i] != sep ==> piece_end(s, i, sep) > i,
    decreases s.len() - i,
{
    if i < s.len() && s[i] != sep {
        lemma_piece_end_bounds(s, i + 1, sep);
    }
}

/// The nonempty pieces of `s` between `sep` characters, from `i` on.
pub open spec fn pieces_from(s: Seq<char>, i: int, sep: char) -> Seq<Seq<char>>
    decreases s.len() - i,
{
    if i < 0 || i >= s.len() {
        Seq::empty()
    } else if s[i] == sep {
        pieces_from(s, i + 1, sep)
    } else {
        let j = piece_end(s, i, sep);
        let next = if i < j && j <= s.len() {
            j
        } else {
            i + 1
        };
        seq![s.subrange(i, j)] + pieces_from(s, next, sep)
    }
}

/// The nonempty pieces of `s` between `sep` characters.
pub open spec fn pieces_of(s: Seq<char>, sep: char) -> Seq<Seq<char>> {
    pieces_from(s, 0, sep)
}

/// Scans past the piece starting at `i`.
fn piece_end_exec(v: &Vec<char>, i: usize, sep: char) -> (r: usize)
    requires
        i <= v@.len(),
    ensures
        r == piece_end(v@, i as int, sep),
        i <= r <= v@.len(),
{
    let mut j: usize = i;
    while j < v.len() && v[j] != sep
        invariant
            i <= j <= v@.len(),
            piece_end(v@, i as int, sep) == piece_end(v@, j as int, sep),
        decreases v@.len() - j,
    {
        j += 1;
    }
    proof {
        lemma_piece_end_bounds(v@, j as int, sep);
    }
    j
}

/// Splits `v` at `sep`, dropping empty pieces.
pub fn split_on_char(v: &Vec<char>, sep: char) -> (r: Vec<Vec<char>>)
    ensures
        vecs_view(r@) == pieces_of(v@, sep),
{
    let mut r: Vec<Vec<char>> = Vec::new();
    let mut i: usize = 0;
    while i < v.len()
        invariant
            i <= v@.len(),
            pieces_of(v@, sep) == vecs_view(r@) + pieces_from(v@, i as int, sep),
        decreases v@.len() - i,
    {
        if v[i] == sep {
            i += 1;
        } else {
            proof {
                lemma_piece_end_bounds(v@, i as int, sep);
            }
            let j = piece_end_exec(v, i, sep);
            let w = subvec(v, i, j);
            proof {
                assert(pieces_from(v@, i as int, sep) == seq![v@.subrange(i as int, j as int)]
                    + pieces_from(v@, j as int, sep));
                assert(vecs_view(r@.push(w)) =~= vecs_view(r@) + seq![w@]);
                assert((vecs_view(r@) + seq![w@]) + pieces_from(v@, j as int, sep) =~= vecs_view(
                    r@,
                ) + (seq![w@] + pieces_from(v@, j as int, sep)));
            }
            r.push(w);
            i = j;
        }
    }
    proof {
        assert(vecs_view(r@) + pieces_from(v@, i as int, sep) =~= vecs_view(r@));
    }
    r
}

/// `a` is an initial segment of `b`.
pub open spec fn is_prefix_of(a: Seq<char>, b: Seq<char>) -> bool {
    a.len() <= b.len() && b.subrange(0, a.len() as int) == a
}

pub proof fn lemma_prefix_concat(a: Seq<char>, b: Seq<char>)
    ensures
        is_prefix_of(a, a + b),
{
    assert((a + b).subrange(0, a.len() as int) =~= a);
}

pub proof fn lemma_prefix_trans(a: Seq<char>, b: Seq<char>, c: Seq<char>)
    requires
        is_prefix_of(a, b),
        is_prefix_of(b, c),
    ensures
        is_prefix_of(a, c),
{
    assert(c.subrange(0, a.len() as int) =~= b.subrange(0, a.len() as int));
    assert(b.subrange(0, a.len() as int) =~= b.subrange(0, b.len() as int).subrange(
        0,
        a.len() as int,
    ));
}

/// `s` holds no newline.
pub open spec fn nl_free(s: Seq<char>) -> bool {
    forall|i: int| 0 <= i < s.len() ==> #[trigger] s[i] != '\n'
}

/// Joined good words hold no newline; when any word is there, the
/// result is nonempty and ends in a word character.
pub proof fn lemma_join_from_clean(ws: Seq<Seq<char>>, k: int)
    requires
        forall|m: int| 0 <= m < ws.len() ==> good_word(#[trigger] ws[m]),
    ensures
        nl_free(join_from(ws, k)),
        0 <= k < ws.len() ==> join_from(ws, k).len() > 0 && !is_ws(join_from(ws, k).last()),
    decreases ws.len() - k,
{
    if 0 <= k < ws.len() {
        lemma_join_from_clean(ws, k + 1);
        let w = ws[k];
        let out = join_from(ws, k);
        assert(out == seq![' '] + w + join_from(ws, k + 1));
        assert forall|i: int| 0 <= i < out.len() implies #[trigger] out[i] != '\n' by {
            if 1 <= i < 1 + w.len() {
                assert(out[i] == w[i - 1]);
                assert(!is_ws(w[i - 1]));
            } else if i >= 1 + w.len() {
                assert(out[i] == join_from(ws, k + 1)[i - 1 - w.len()]);
            }
        }
        if k + 1 < ws.len() {
            assert(out.last() == join_from(ws, k + 1).last());
        } else {
            assert(join_from(ws, k + 1).len() == 0);
            assert(out.last() == w.last());
        }
    }
}

/// Normalized text holds no newline; with any word present it is
/// nonempty and ends in a word character.
pub proof fn lemma_normalize_clean(s: Seq<char>)
    ensures
        nl_free(normalize_ws(s)),
        words_of(s).len() > 0 ==> normalize_ws(s).len() > 0 && !is_ws(normalize_ws(s).last())
            && !is_ws(normalize_ws(s).first()),
{
    lemma_words_from_wf(s, 0);
    let ws = words_of(s);
    lemma_join_from_clean(ws, 1);
    if ws.len() > 0 {
        let out = join_words(ws);
        assert(out == ws[0] + join_from(ws, 1));
        assert(good_word(ws[0]));
        assert forall|i: int| 0 <= i < out.len() implies #[trigger] out[i] != '\n' by {
            if i < ws[0].len() {
                assert(out[i] == ws[0][i]);
                assert(!is_ws(ws[0][i]));
            } else {
                assert(out[i] == join_from(ws, 1)[i - ws[0].len()]);
            }
        }
        if ws.len() > 1 {
            assert(out.last() == join_from(ws, 1).last());
        } else {
            assert(join_from(ws, 1).len() == 0);
            assert(out.last() == ws[0].last());
        }
        assert(out.first() == ws[0][0]);
    }
}

/// `needle` occurs somewhere in `hay`.
pub open spec fn contains_seq(hay: Seq<char>, needle: Seq<char>) -> bool {
    exists|i: int|
        0 <= i && i + needle.len() <= hay.len() && #[trigger] hay.subrange(
            i,
            i + needle.len() as int,
        ) == needle
}

pub proof fn lemma_contains_extend(hay: Seq<char>, more: Seq<char>, needle: Seq<char>)
    requires
        contains_seq(hay, needle),
    ensures
        contains_seq(hay + more, needle),
{
    let i = choose|i: int|
        0 <= i && i + needle.len() <= hay.len() && #[trigger] hay.subrange(
            i,
            i + needle.len() as int,
        ) == needle;
    assert((hay + more).subrange(i, i + needle.len() as int) == hay.subrange(
        i,
        i + needle.len() as int,
    ));
}

pub proof fn lemma_contains_shift(pre: Seq<char>, hay: Seq<char>, needle: Seq<char>)
    requires
        contains_seq(hay, needle),
    ensures
        contains_seq(pre + hay, needle),
{
    let i = choose|i: int|
        0 <= i && i + needle.len() <= hay.len() && #[trigger] hay.subrange(
            i,
            i + needle.len() as int,
        ) == needle;
    assert((pre + hay).subrange(pre.len() + i, pre.len() + i + needle.len() as int)
        == hay.subrange(i, i + needle.len() as int));
}

} // verus!
