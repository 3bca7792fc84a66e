//! Character-level helpers on strings, each stated over `Seq<char>`.
use vstd::prelude::*;

verus! {

/// The characters that `char::is_whitespace` accepts (Unicode `White_Space`).
pub open spec fn is_ws(c: char) -> bool {
    c == ' ' || ('\t' <= c && c <= '\r') || c == '\u{85}' || c == '\u{a0}' || c == '\u{1680}'
        || ('\u{2000}' <= c && c <= '\u{200a}') || c == '\u{2028}' || c == '\u{2029}'
        || c == '\u{202f}' || c == '\u{205f}' || c == '\u{3000}'
}

pub fn is_ws_char(c: char) -> (r: bool)
    ensures
        r == is_ws(c),
{
    c == ' ' || ('\t' <= c && c <= '\r') || c == '\u{85}' || c == '\u{a0}' || c == '\u{1680}'
        || ('\u{2000}' <= c && c <= '\u{200a}') || c == '\u{2028}' || c == '\u{2029}'
        || c == '\u{202f}' || c == '\u{205f}' || c == '\u{3000}'
}

/// `s` without its leading whitespace.
pub open spec fn trim_start(s: Seq<char>) -> Seq<char>
    decreases s.len(),
{
    if s.len() > 0 && is_ws(s[0]) {
        trim_start(s.drop_first())
    } else {
        s
    }
}

/// `s` without its trailing whitespace.
pub open spec fn trim_end(s: Seq<char>) -> Seq<char>
    decreases s.len(),
{
    if s.len() > 0 && is_ws(s.last()) {
        trim_end(s.drop_last())
    } else {
        s
    }
}

/// `s` without whitespace at either end, as `str::trim` gives it.
pub open spec fn trim(s: Seq<char>) -> Seq<char> {
    trim_end(trim_start(s))
}

/// The pieces of `s` between occurrences of `c`, as `str::split` gives them:
/// always at least one piece, empty pieces kept.
pub open spec fn split_on(s: Seq<char>, c: char) -> Seq<Seq<char>>
    decreases s.len(),
{
    if s.len() == 0 {
        seq![Seq::empty()]
    } else {
        let init = split_on(s.drop_last(), c);
        if s.last() == c {
            init.push(Seq::empty())
        } else {
            init.update(init.len() - 1, init.last().push(s.last()))
        }
    }
}

/// The index of the first `c` in `s`, if any.
pub open spec fn find_char(s: Seq<char>, c: char) -> Option<int>
    decreases s.len(),
{
    if s.len() == 0 {
        None
    } else {
        match find_char(s.drop_last(), c) {
            Some(i) => Some(i),
            None => if s.last() == c {
                Some(s.len() - 1)
            } else {
                None
            },
        }
    }
}

/// The whitespace-separated words of `s`, as `str::split_whitespace` gives them.
pub open spec fn words(s: Seq<char>) -> Seq<Seq<char>>
    decreases s.len(),
{
    if s.len() == 0 {
        Seq::empty()
    } else {
        let w = words(s.drop_last());
        if is_ws(s.last()) {
            w
        } else if s.len() >= 2 && !is_ws(s[s.len() - 2]) {
            w.update(w.len() - 1, w.last().push(s.last()))
        } else {
            w.push(seq![s.last()])
        }
    }
}

/// The lines of `ls` joined with a newline between each two.
pub open spec fn join_lines(ls: Seq<Seq<char>>) -> Seq<char>
    decreases ls.len(),
{
    if ls.len() == 0 {
        Seq::empty()
    } else if ls.len() == 1 {
        ls[0]
    } else {
        join_lines(ls.drop_last()) + seq!['\n'] + ls.last()
    }
}

/// The decimal digit for `d < 10`.
pub open spec fn digit(d: nat) -> char {
    if d == 0 { '0' }
    else if d == 1 { '1' }
    else if d == 2 { '2' }
    else if d == 3 { '3' }
    else if d == 4 { '4' }
    else if d == 5 { '5' }
    else if d == 6 { '6' }
    else if d == 7 { '7' }
    else if d == 8 { '8' }
    else { '9' }
}

/// The decimal text of `n`, without leading zeros.
pub open spec fn decimal(n: nat) -> Seq<char>
    decreases n,
{
    if n < 10 {
        seq![digit(n)]
    } else {
        decimal(n / 10).push(digit(n % 10))
    }
}

pub proof fn lemma_split_nonempty(s: Seq<char>, c: char)
    ensures
        split_on(s, c).len() >= 1,
    decreases s.len(),
{
    if s.len() > 0 {
        lemma_split_nonempty(s.drop_last(), c);
    }
}

/// Whether two strings hold the same characters.
pub fn same_text(a: &str, b: &str) -> (r: bool)
    ensures
        r == (a@ == b@),
{
    let n = a.unicode_len();
    if n != b.unicode_len() {
        return false;
    }
    let mut i: usize = 0;
    while i < n
        invariant
            n == a@.len(),
            n == b@.len(),
            i <= n,
            a@.take(i as int) == b@.take(i as int),
        decreases n - i,
    {
        if a.get_char(i) != b.get_char(i) {
            return false;
        }
        assert(a@.take(i as int + 1) =~= a@.take(i as int).push(a@[i as int]));
        assert(b@.take(i as int + 1) =~= b@.take(i as int).push(b@[i as int]));
        i = i + 1;
    }
    assert(a@ =~= a@.take(n as int));
    assert(b@ =~= b@.take(n as int));
    true
}

/// `s` without whitespace at either end.
pub fn trim_str(s: &str) -> (r: &str)
    ensures
        r@ == trim(s@),
{
    let n = s.unicode_len();
    let mut i: usize = 0;
    assert(s@ =~= s@.subrange(0, n as int));
    while i < n && is_ws_char(s.get_char(i))
        invariant
            n == s@.len(),
            i <= n,
            trim_start(s@) == trim_start(s@.subrange(i as int, n as int)),
        decreases n - i,
    {
        assert(s@.subrange(i as int + 1, n as int) =~= s@.subrange(i as int, n as int).drop_first());
        i = i + 1;
    }
    let ghost front = s@.subrange(i as int, n as int);
    assert(trim_start(front) == front);
    let mut j: usize = n;
    while j > i && is_ws_char(s.get_char(j - 1))
        invariant
            n == s@.len(),
            i <= j <= n,
            trim_end(front) == trim_end(s@.subrange(i as int, j as int)),
        decreases j,
    {
        assert(s@.subrange(i as int, j as int - 1) =~= s@.subrange(i as int, j as int).drop_last());
        j = j - 1;
    }
    s.substring_char(i, j)
}

/// The decimal text of `n`.
pub fn decimal_text(n: u64) -> (r: String)
    ensures
        r@ == decimal(n as nat),
    decreases n,
{
    let d = (n % 10) as usize;
    let digits = "0123456789";
    proof {
        reveal_strlit("0123456789");
    }
    let ch = digits.substring_char(d, d + 1);
    if n < 10 {
        assert(ch@ =~= seq![digit(n as nat)]);
        String::from_str(ch)
    } else {
        let mut head = decimal_text(n / 10);
        head.append(ch);
        assert(ch@ =~= seq![digit((n % 10) as nat)]);
        assert(head@ =~= decimal((n / 10) as nat).push(digit((n % 10) as nat)));
        head
    }
}

/// The characters that each string of `v` holds.
pub open spec fn texts(v: Seq<String>) -> Seq<Seq<char>> {
    v.map_values(|x: String| x@)
}

/// The pieces of `s` between occurrences of `c`.
pub fn split_text(s: &str, c: char) -> (r: Vec<String>)
    ensures
        texts(r@) == split_on(s@, c),
{
    let n = s.unicode_len();
    let mut pieces: Vec<String> = Vec::new();
    let mut start: usize = 0;
    let mut i: usize = 0;
    assert(s@.take(0) =~= Seq::<char>::empty());
    assert(texts(pieces@).push(s@.subrange(0, 0)) =~= seq![Seq::<char>::empty()]);
    while i < n
        invariant
            n == s@.len(),
            start <= i <= n,
            split_on(s@.take(i as int), c) == texts(pieces@).push(s@.subrange(start as int, i as int)),
        decreases n - i,
    {
        let ch = s.get_char(i);
        let ghost prev = texts(pieces@);
        assert(s@.take(i as int + 1).drop_last() =~= s@.take(i as int));
        if ch == c {
            let piece = String::from_str(s.substring_char(start, i));
            pieces.push(piece);
            assert(texts(pieces@) =~= prev.push(s@.subrange(start as int, i as int)));
            start = i + 1;
            assert(s@.subrange(start as int, i as int + 1) =~= Seq::<char>::empty());
        } else {
            assert(s@.subrange(start as int, i as int + 1) =~= s@.subrange(start as int, i as int).push(ch));
            assert(prev.push(s@.subrange(start as int, i as int)).update(prev.len() as int, s@.subrange(start as int, i as int + 1))
                =~= prev.push(s@.subrange(start as int, i as int + 1)));
        }
        i = i + 1;
    }
    let last = String::from_str(s.substring_char(start, n));
    let ghost prev = texts(pieces@);
    pieces.push(last);
    assert(texts(pieces@) =~= prev.push(s@.subrange(start as int, n as int)));
    assert(s@.take(n as int) =~= s@);
    pieces
}

/// The index of the first `c` in `s`, if any.
pub fn find_text_char(s: &str, c: char) -> (r: Option<usize>)
    ensures
        match r {
            Some(i) => find_char(s@, c) == Some(i as int),
            None => find_char(s@, c) is None,
        },
{
    let n = s.unicode_len();
    let mut i: usize = 0;
    assert(s@.take(0) =~= Seq::<char>::empty());
    while i < n
        invariant
            n == s@.len(),
            i <= n,
            find_char(s@.take(i as int), c) is None,
        decreases n - i,
    {
        assert(s@.take(i as int + 1).drop_last() =~= s@.take(i as int));
        if s.get_char(i) == c {
            assert(find_char(s@.take(i as int + 1), c) == Some(i as int));
            proof { lemma_find_prefix(s@, i as int + 1, c); }
            return Some(i);
        }
        i = i + 1;
    }
    assert(s@.take(n as int) =~= s@);
    None
}

/// A character found in a prefix is found at the same place in the whole.
pub proof fn lemma_find_prefix(s: Seq<char>, k: int, c: char)
    requires
        0 <= k <= s.len(),
        find_char(s.take(k), c) is Some,
    ensures
        find_char(s, c) == find_char(s.take(k), c),
    decreases s.len() - k,
{
    if k < s.len() {
        assert(s.take(k + 1).drop_last() =~= s.take(k));
        lemma_find_prefix(s, k + 1, c);
    } else {
        assert(s.take(k) =~= s);
    }
}

/// The whitespace-separated words of `s`.
pub fn words_of(s: &str) -> (r: Vec<String>)
    ensures
        texts(r@) == words(s@),
{
    let n = s.unicode_len();
    let mut found: Vec<String> = Vec::new();
    let mut start: usize = 0;
    let mut in_word = false;
    let mut i: usize = 0;
    assert(s@.take(0) =~= Seq::<char>::empty());
    while i < n
        invariant
            n == s@.len(),
            start <= i <= n,
            in_word ==> start < i && !is_ws(s@[i - 1]),
            !in_word ==> (i == 0 || is_ws(s@[i - 1])),
            words(s@.take(i as int)) == if in_word {
                texts(found@).push(s@.subrange(start as int, i as int))
            } else {
                texts(found@)
            },
        decreases n - i,
    {
        let ch = s.get_char(i);
        let ghost t = s@.take(i as int + 1);
        assert(t.drop_last() =~= s@.take(i as int));
        assert(t.last() == ch);
        if is_ws_char(ch) {
            if in_word {
                let ghost prev = texts(found@);
                found.push(String::from_str(s.substring_char(start, i)));
                assert(texts(found@) =~= prev.push(s@.subrange(start as int, i as int)));
            }
            in_word = false;
        } else if in_word {
            assert(t[t.len() - 2] == s@[i - 1]);
            let ghost prev = texts(found@);
            assert(s@.subrange(start as int, i as int + 1) =~= s@.subrange(start as int, i as int).push(ch));
            assert(prev.push(s@.subrange(start as int, i as int)).update(prev.len() as int, s@.subrange(start as int, i as int + 1))
                =~= prev.push(s@.subrange(start as int, i as int + 1)));
        } else {
            if i > 0 {
                assert(t[t.len() - 2] == s@[i - 1]);
            }
            start = i;
            in_word = true;
            assert(s@.subrange(start as int, i as int + 1) =~= seq![ch]);
        }
        i = i + 1;
    }
    assert(s@.take(n as int) =~= s@);
    if in_word {
        let ghost prev = texts(found@);
        found.push(String::from_str(s.substring_char(start, n)));
        assert(texts(found@) =~= prev.push(s@.subrange(start as int, n as int)));
    }
    found
}

} // verus!
