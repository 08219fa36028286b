//! Character-level text functions: whitespace tokens, trimming, search
//! query sanitising and hex encoding.
use vstd::prelude::*;

verus! {

/// Whitespace as `char::is_whitespace` defines it (Unicode `White_Space`).
pub open spec fn is_ws_spec(c: char) -> bool {
    ('\t' <= c && c <= '\r') || c == ' ' || c == '\u{85}' || c == '\u{a0}' || c == '\u{1680}'
        || ('\u{2000}' <= c && c <= '\u{200a}') || c == '\u{2028}' || c == '\u{2029}'
        || c == '\u{202f}' || c == '\u{205f}' || c == '\u{3000}'
}

pub fn is_ws(c: char) -> (r: bool)
    ensures
        r == is_ws_spec(c),
{
    ('\t' <= c && c <= '\r') || c == ' ' || c == '\u{85}' || c == '\u{a0}' || c == '\u{1680}'
        || ('\u{2000}' <= c && c <= '\u{200a}') || c == '\u{2028}' || c == '\u{2029}'
        || c == '\u{202f}' || c == '\u{205f}' || c == '\u{3000}'
}

/// Whether a whitespace-separated token starts at position `i` of `s`.
pub open spec fn token_starts_at(s: Seq<char>, i: int) -> bool {
    0 <= i < s.len() && !is_ws_spec(s[i]) && (i == 0 || is_ws_spec(s[i - 1]))
}

/// Number of maximal runs of non-whitespace characters in `s`.
pub open spec fn word_count_spec(s: Seq<char>) -> nat
    decreases s.len(),
{
    if s.len() == 0 {
        0
    } else {
        word_count_spec(s.drop_last()) + if token_starts_at(s, s.len() - 1) {
            1nat
        } else {
            0nat
        }
    }
}

proof fn lemma_word_count_le(s: Seq<char>)
    ensures
        word_count_spec(s) <= s.len(),
    decreases s.len(),
{
    if s.len() > 0 {
        lemma_word_count_le(s.drop_last());
    }
}

/// Number of whitespace-separated words of `s`.
pub fn word_count(s: &str) -> (r: u64)
    ensures
        r == word_count_spec(s@),
{
    let n = s.unicode_len();
    let mut i: usize = 0;
    let mut count: u64 = 0;
    let mut prev_ws = true;
    while i < n
        invariant
            n == s@.len(),
            i <= n,
            count == word_count_spec(s@.subrange(0, i as int)),
            i > 0 ==> prev_ws == is_ws_spec(s@[i - 1]),
            i == 0 ==> prev_ws,
        decreases n - i,
    {
        let c = s.get_char(i);
        let ws = is_ws(c);
        proof {
            let t = s@.subrange(0, i + 1);
            assert(t.drop_last() =~= s@.subrange(0, i as int));
            lemma_word_count_le(s@.subrange(0, i as int));
        }
        if !ws && prev_ws {
            count = count + 1;
        }
        prev_ws = ws;
        i = i + 1;
    }
    assert(s@.subrange(0, n as int) =~= s@);
    count
}

/// The lower-case hexadecimal digit of value `d` (below 16).
pub open spec fn hex_digit_spec(d: int) -> char {
    seq!['0', '1', '2', '3', '4', '5', '6', '7', '8', '9', 'a', 'b', 'c', 'd', 'e', 'f'][d]
}

/// Two lower-case hexadecimal digits per byte, high nibble first.
pub open spec fn hex_spec(b: Seq<u8>) -> Seq<char>
    decreases b.len(),
{
    if b.len() == 0 {
        Seq::empty()
    } else {
        let x = b.last() as int;
        hex_spec(b.drop_last()) + seq![hex_digit_spec(x / 16), hex_digit_spec(x % 16)]
    }
}

/// Encodes a blob column as text for the statement passthrough. Despite the
/// name the encoding is hexadecimal, two lower-case digits per byte.
pub fn base64_encode(data: &[u8]) -> (r: String)
    ensures
        r@ == hex_spec(data@),
{
    let digits = "0123456789abcdef";
    proof {
        reveal_strlit("0123456789abcdef");
    }
    assert(digits@ =~= seq!['0', '1', '2', '3', '4', '5', '6', '7', '8', '9', 'a', 'b', 'c', 'd', 'e', 'f']);
    let mut result = String::new();
    let mut i: usize = 0;
    while i < data.len()
        invariant
            i <= data@.len(),
            digits@ == seq!['0', '1', '2', '3', '4', '5', '6', '7', '8', '9', 'a', 'b', 'c', 'd', 'e', 'f'],
            result@ == hex_spec(data@.subrange(0, i as int)),
        decreases data@.len() - i,
    {
        let x = data[i];
        let hi = (x / 16) as usize;
        let lo = (x % 16) as usize;
        result.append(digits.substring_char(hi, hi + 1));
        result.append(digits.substring_char(lo, lo + 1));
        proof {
            let t = data@.subrange(0, i + 1);
            assert(t.drop_last() =~= data@.subrange(0, i as int));
            assert(t.last() == x);
        }
        assert(result@ =~= hex_spec(data@.subrange(0, i + 1)));
        i = i + 1;
    }
    assert(data@.subrange(0, data@.len() as int) =~= data@);
    result
}

/// `s` without its double quotes.
pub open spec fn strip_quotes_spec(s: Seq<char>) -> Seq<char>
    decreases s.len(),
{
    if s.len() == 0 {
        Seq::empty()
    } else if s.last() == '"' {
        strip_quotes_spec(s.drop_last())
    } else {
        strip_quotes_spec(s.drop_last()).push(s.last())
    }
}

/// `s` without leading whitespace.
pub open spec fn trim_start_spec(s: Seq<char>) -> Seq<char>
    decreases s.len(),
{
    if s.len() > 0 && is_ws_spec(s[0]) {
        trim_start_spec(s.drop_first())
    } else {
        s
    }
}

/// `s` without trailing whitespace.
pub open spec fn trim_end_spec(s: Seq<char>) -> Seq<char>
    decreases s.len(),
{
    if s.len() > 0 && is_ws_spec(s.last()) {
        trim_end_spec(s.drop_last())
    } else {
        s
    }
}

/// `s` without leading and trailing whitespace, as `str::trim` gives it.
pub open spec fn trim_spec(s: Seq<char>) -> Seq<char> {
    trim_end_spec(trim_start_spec(s))
}

/// A search query with its double quotes removed and then trimmed.
pub open spec fn sanitize_spec(q: Seq<char>) -> Seq<char> {
    trim_spec(strip_quotes_spec(q))
}

proof fn lemma_trim_start_skip(s: Seq<char>, i: int)
    requires
        0 <= i <= s.len(),
        forall|k: int| 0 <= k < i ==> is_ws_spec(#[trigger] s[k]),
    ensures
        trim_start_spec(s) == trim_start_spec(s.subrange(i, s.len() as int)),
    decreases i,
{
    if i > 0 {
        assert(s.drop_first().subrange(i - 1, s.drop_first().len() as int) =~= s.subrange(i, s.len() as int));
        lemma_trim_start_skip(s.drop_first(), i - 1);
    } else {
        assert(s.subrange(0, s.len() as int) =~= s);
    }
}

proof fn lemma_trim_end_skip(s: Seq<char>, j: int)
    requires
        0 <= j <= s.len(),
        forall|k: int| j <= k < s.len() ==> is_ws_spec(#[trigger] s[k]),
    ensures
        trim_end_spec(s) == trim_end_spec(s.subrange(0, j)),
    decreases s.len() - j,
{
    if j < s.len() {
        assert(s.drop_last().subrange(0, j) =~= s.subrange(0, j));
        lemma_trim_end_skip(s.drop_last(), j);
    } else {
        assert(s.subrange(0, s.len() as int) =~= s);
    }
}

/// `s` with leading and trailing whitespace removed.
pub fn trim(s: &str) -> (r: String)
    ensures
        r@ == trim_spec(s@),
{
    let n = s.unicode_len();
    let mut i: usize = 0;
    while i < n && is_ws(s.get_char(i))
        invariant
            n == s@.len(),
            i <= n,
            forall|k: int| 0 <= k < i ==> is_ws_spec(#[trigger] s@[k]),
        decreases n - i,
    {
        i = i + 1;
    }
    proof {
        lemma_trim_start_skip(s@, i as int);
    }
    let ghost rest = s@.subrange(i as int, n as int);
    assert(i < n ==> !is_ws_spec(rest[0]));
    assert(trim_start_spec(rest) == rest);
    let mut j: usize = n;
    while j > i && is_ws(s.get_char(j - 1))
        invariant
            n == s@.len(),
            i <= j <= n,
            rest == s@.subrange(i as int, n as int),
            forall|k: int| j <= k < n ==> is_ws_spec(#[trigger] s@[k]),
        decreases j,
    {
        j = j - 1;
    }
    proof {
        assert forall|k: int| j - i <= k < rest.len() implies is_ws_spec(#[trigger] rest[k]) by {
            assert(rest[k] == s@[k + i]);
        }
        lemma_trim_end_skip(rest, j - i);
        let r = rest.subrange(0, j - i);
        assert(r =~= s@.subrange(i as int, j as int));
        if r.len() > 0 {
            assert(r.last() == s@[j - 1]);
        }
    }
    String::from_str(s.substring_char(i, j))
}

/// The query text with double quotes removed and surrounding whitespace
/// trimmed, as the search index matches it.
pub fn sanitize_query(q: &str) -> (r: String)
    ensures
        r@ == sanitize_spec(q@),
{
    let n = q.unicode_len();
    let mut stripped = String::new();
    let mut i: usize = 0;
    while i < n
        invariant
            n == q@.len(),
            i <= n,
            stripped@ == strip_quotes_spec(q@.subrange(0, i as int)),
        decreases n - i,
    {
        let c = q.get_char(i);
        proof {
            let t = q@.subrange(0, i + 1);
            assert(t.drop_last() =~= q@.subrange(0, i as int));
            assert(t.last() == c);
        }
        if c != '"' {
            let one = q.substring_char(i, i + 1);
            assert(one@ =~= seq![c]);
            stripped.append(one);
        }
        i = i + 1;
    }
    assert(q@.subrange(0, n as int) =~= q@);
    trim(stripped.as_str())
}

/// Whether `a` and `b` hold the same characters.
pub fn str_eq(a: &str, b: &str) -> (r: bool)
    ensures
        r == (a@ == b@),
{
    let n = a.unicode_len();
    if n != b.unicode_len() {
        return false;
    }
    let mut i: usize = 0;
    while i < n
        invariant
            n == a@.len() && n == b@.len(),
            i <= n,
            forall|k: int| 0 <= k < i ==> a@[k] == b@[k],
        decreases n - i,
    {
        if a.get_char(i) != b.get_char(i) {
            return false;
        }
        i = i + 1;
    }
    assert(a@ =~= b@);
    true
}

/// The texts of `parts` joined by single spaces.
pub open spec fn join_spec(parts: Seq<Seq<char>>) -> Seq<char>
    decreases parts.len(),
{
    if parts.len() == 0 {
        Seq::empty()
    } else if parts.len() == 1 {
        parts[0]
    } else {
        join_spec(parts.drop_last()) + seq![' '] + parts.last()
    }
}

/// The texts of `parts` joined by single spaces, then trimmed.
pub fn join_trimmed(parts: &Vec<String>) -> (r: String)
    ensures
        r@ == trim_spec(join_spec(parts@.map_values(|s: String| s@))),
{
    let ghost views = parts@.map_values(|s: String| s@);
    let mut joined = String::new();
    let mut i: usize = 0;
    while i < parts.len()
        invariant
            views == parts@.map_values(|s: String| s@),
            i <= parts@.len(),
            joined@ == join_spec(views.subrange(0, i as int)),
        decreases parts@.len() - i,
    {
        proof {
            let t = views.subrange(0, i + 1);
            assert(t.drop_last() =~= views.subrange(0, i as int));
            reveal_strlit(" ");
        }
        if i > 0 {
            joined.append(" ");
        }
        joined.append(parts[i].as_str());
        proof {
            let t = views.subrange(0, i + 1);
            if i == 0 {
                assert(joined@ =~= t[0]);
            } else {
                assert(joined@ =~= join_spec(t.drop_last()) + seq![' '] + t.last());
            }
        }
        i = i + 1;
    }
    assert(views.subrange(0, parts@.len() as int) =~= views);
    trim(joined.as_str())
}

} // verus!
