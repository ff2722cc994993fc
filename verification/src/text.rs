//! Character-level text utilities: the whitespace model, word splitting,
//! joining with single spaces, and trimming. Every public function here has an
//! exact contract over the corresponding specification function; the rest of
//! the library states its own contracts in terms of these specifications.

use vstd::prelude::*;

verus! {

/// The whitespace characters recognized by this library: the Unicode
/// white-space set — tab through carriage return, space, next line,
/// no-break space, ogham space mark, the en-quad..hair-space range, the
/// line and paragraph separators, the narrow and medium mathematical
/// spaces, and the ideographic space.
pub open spec fn is_ws(c: char) -> bool {
    ('\u{9}' <= c && c <= '\u{d}') || c == ' ' || c == '\u{85}' || c == '\u{a0}' || c
        == '\u{1680}' || ('\u{2000}' <= c && c <= '\u{200a}') || c == '\u{2028}' || c
        == '\u{2029}' || c == '\u{202f}' || c == '\u{205f}' || c == '\u{3000}'
}

/// Decides whitespace, exactly as `is_ws` does.
pub fn is_whitespace_char(c: char) -> (r: bool)
    ensures
        r == is_ws(c),
{
    ('\u{9}' <= c && c <= '\u{d}') || c == ' ' || c == '\u{85}' || c == '\u{a0}' || c
        == '\u{1680}' || ('\u{2000}' <= c && c <= '\u{200a}') || c == '\u{2028}' || c
        == '\u{2029}' || c == '\u{202f}' || c == '\u{205f}' || c == '\u{3000}'
}

/// The characters of a string, as an indexable vector.
pub fn chars_of(s: &str) -> (v: Vec<char>)
    ensures
        v@ == s@,
{
    let n = s.unicode_len();
    let mut v: Vec<char> = Vec::new();
    let mut i: usize = 0;
    while i < n
        invariant
            n == s@.len(),
            i <= n,
            v@ == s@.subrange(0, i as int),
        decreases n - i,
    {
        v.push(s.get_char(i));
        i += 1;
        proof {
            assert(v@ =~= s@.subrange(0, i as int));
        }
    }
    proof {
        assert(s@.subrange(0, n as int) =~= s@);
    }
    v
}

/// Word splitting, defined one character at a time: `cur` is the word begun
/// and not yet ended. Maximal runs of non-whitespace characters become words;
/// whitespace only separates.
pub open spec fn split_ws_acc(s: Seq<char>, cur: Seq<char>) -> Seq<Seq<char>>
    decreases s.len(),
{
    if s.len() == 0 {
        if cur.len() == 0 {
            Seq::empty()
        } else {
            seq![cur]
        }
    } else if is_ws(s[0]) {
        if cur.len() == 0 {
            split_ws_acc(s.drop_first(), Seq::empty())
        } else {
            seq![cur] + split_ws_acc(s.drop_first(), Seq::empty())
        }
    } else {
        split_ws_acc(s.drop_first(), cur.push(s[0]))
    }
}

/// The whitespace-delimited words of `s`, in order.
pub open spec fn split_ws(s: Seq<char>) -> Seq<Seq<char>> {
    split_ws_acc(s, Seq::empty())
}

/// Joining word sequences with a single space between consecutive words.
pub open spec fn join_spc(ws: Seq<Seq<char>>) -> Seq<char>
    decreases ws.len(),
{
    if ws.len() == 0 {
        Seq::empty()
    } else if ws.len() == 1 {
        ws[0]
    } else {
        ws[0] + seq![' '] + join_spc(ws.drop_first())
    }
}

/// A string is collapsed when it equals its own words joined by single
/// spaces: no leading or trailing whitespace, and single spaces inside.
pub open spec fn is_collapsed(s: Seq<char>) -> bool {
    s == join_spc(split_ws(s))
}

/// Splits a string into its whitespace-delimited words.
pub fn split_words(s: &str) -> (words: Vec<String>)
    ensures
        words.deep_view() == split_ws(s@),
{
    let cs = chars_of(s);
    let n = cs.len();
    let mut words: Vec<String> = Vec::new();
    let mut start: usize = 0;
    let mut i: usize = 0;
    proof {
        assert(s@.subrange(0, n as int) =~= s@);
        assert(s@.subrange(0, 0) =~= Seq::<char>::empty());
        assert(words.deep_view() + split_ws_acc(s@, Seq::empty()) =~= split_ws(s@));
    }
    while i < n
        invariant
            n == s@.len(),
            cs@ == s@,
            start <= i <= n,
            forall|j: int| start <= j < i ==> !is_ws(s@[j]),
            words.deep_view() + split_ws_acc(
                s@.subrange(i as int, n as int),
                s@.subrange(start as int, i as int),
            ) == split_ws(s@),
        decreases n - i,
    {
        let ghost rem = s@.subrange(i as int, n as int);
        let ghost cur = s@.subrange(start as int, i as int);
        proof {
            assert(rem.drop_first() =~= s@.subrange(i + 1, n as int));
        }
        let c = cs[i];
        if is_whitespace_char(c) {
            if start < i {
                let w = s.substring_char(start, i);
                words.push(String::from_str(w));
                proof {
                    assert(words.deep_view() =~= words.deep_view().drop_last().push(cur));
                    assert(words.deep_view().drop_last() + (seq![cur] + split_ws_acc(
                        rem.drop_first(),
                        Seq::empty(),
                    )) =~= words.deep_view() + split_ws_acc(rem.drop_first(), Seq::empty()));
                }
            }
            start = i + 1;
        } else {
            proof {
                assert(cur.push(s@[i as int]) =~= s@.subrange(start as int, i + 1));
            }
        }
        i += 1;
        proof {
            assert(s@.subrange(start as int, i as int).len() == 0 ==> s@.subrange(
                start as int,
                i as int,
            ) =~= Seq::<char>::empty());
        }
    }
    if start < n {
        let w = s.substring_char(start, n);
        words.push(String::from_str(w));
        proof {
            let cur = s@.subrange(start as int, n as int);
            assert(s@.subrange(n as int, n as int).len() == 0);
            assert(split_ws_acc(s@.subrange(n as int, n as int), cur) =~= seq![cur]);
            assert(words.deep_view() =~= words.deep_view().drop_last().push(cur));
            assert(words.deep_view().drop_last() + seq![cur] =~= words.deep_view());
        }
    } else {
        proof {
            let cur = s@.subrange(start as int, n as int);
            assert(cur.len() == 0);
            assert(split_ws_acc(s@.subrange(n as int, n as int), cur) =~= Seq::<Seq<char>>::empty());
            assert(words.deep_view() + Seq::<Seq<char>>::empty() =~= words.deep_view());
        }
    }
    words
}

/// Appending one more word to a join: a separating space is added exactly
/// when earlier words exist.
pub proof fn lemma_join_push(ws: Seq<Seq<char>>, w: Seq<char>)
    ensures
        join_spc(ws.push(w)) == if ws.len() == 0 {
            w
        } else {
            join_spc(ws) + seq![' '] + w
        },
    decreases ws.len(),
{
    if ws.len() == 0 {
        assert(ws.push(w) =~= seq![w]);
    } else if ws.len() == 1 {
        assert(ws.push(w).drop_first() =~= seq![w]);
        assert(join_spc(seq![w]) == w);
        assert(join_spc(ws.push(w)) == ws[0] + seq![' '] + w);
    } else {
        lemma_join_push(ws.drop_first(), w);
        assert(ws.push(w).drop_first() =~= ws.drop_first().push(w));
        assert(join_spc(ws.push(w)) =~= join_spc(ws) + seq![' '] + w);
    }
}

/// Joins the words `words[from..to]` with single spaces.
pub fn join_range(words: &Vec<String>, from: usize, to: usize) -> (r: String)
    requires
        from <= to <= words.len(),
    ensures
        r@ == join_spc(words.deep_view().subrange(from as int, to as int)),
{
    let mut r = String::new();
    let mut i = from;
    proof {
        assert(words.deep_view().subrange(from as int, from as int)
            =~= Seq::<Seq<char>>::empty());
    }
    while i < to
        invariant
            from <= i <= to <= words.len(),
            words.deep_view().len() == words.len(),
            r@ == join_spc(words.deep_view().subrange(from as int, i as int)),
        decreases to - i,
    {
        let ghost pre = words.deep_view().subrange(from as int, i as int);
        proof {
            assert(pre.len() == i - from);
        }
        if i > from {
            r.append(" ");
            proof {
                reveal_strlit(" ");
            }
        }
        r.append(words[i].as_str());
        i += 1;
        proof {
            let post = words.deep_view().subrange(from as int, i as int);
            assert(post =~= pre.push(words.deep_view()[i - 1]));
            lemma_join_push(pre, words.deep_view()[i - 1]);
            if pre.len() == 0 {
                assert(r@ =~= join_spc(post));
            } else {
                assert(r@ =~= join_spc(pre) + seq![' '] + words.deep_view()[i - 1]);
            }
            assert(post.len() > 0);
        }
    }
    r
}

/// The string without its leading whitespace.
pub open spec fn trim_left(s: Seq<char>) -> Seq<char>
    decreases s.len(),
{
    if s.len() > 0 && is_ws(s[0]) {
        trim_left(s.drop_first())
    } else {
        s
    }
}

/// The string without its trailing whitespace.
pub open spec fn trim_right(s: Seq<char>) -> Seq<char>
    decreases s.len(),
{
    if s.len() > 0 && is_ws(s.last()) {
        trim_right(s.drop_last())
    } else {
        s
    }
}

/// The string without leading and trailing whitespace.
pub open spec fn trim_spec(s: Seq<char>) -> Seq<char> {
    trim_right(trim_left(s))
}

proof fn lemma_trim_left_skip(s: Seq<char>, a: int)
    requires
        0 <= a <= s.len(),
        forall|j: int| 0 <= j < a ==> is_ws(s[j]),
    ensures
        trim_left(s) == trim_left(s.subrange(a, s.len() as int)),
    decreases a,
{
    if a == 0 {
        assert(s.subrange(0, s.len() as int) =~= s);
    } else {
        assert(is_ws(s[0]));
        assert(s.drop_first() =~= s.subrange(1, s.len() as int));
        lemma_trim_left_skip(s.drop_first(), a - 1);
        assert(s.drop_first().subrange(a - 1, s.drop_first().len() as int) =~= s.subrange(
            a,
            s.len() as int,
        ));
    }
}

proof fn lemma_trim_right_skip(s: Seq<char>, b: int)
    requires
        0 <= b <= s.len(),
        forall|j: int| b <= j < s.len() ==> is_ws(s[j]),
    ensures
        trim_right(s) == trim_right(s.subrange(0, b)),
    decreases s.len() - b,
{
    if b == s.len() {
        assert(s.subrange(0, s.len() as int) =~= s);
    } else {
        assert(is_ws(s.last()));
        assert(s.drop_last() =~= s.subrange(0, s.len() - 1));
        lemma_trim_right_skip(s.drop_last(), b);
        assert(s.drop_last().subrange(0, b) =~= s.subrange(0, b));
    }
}

/// Removes leading and trailing whitespace.
pub fn trim_str(s: &str) -> (r: String)
    ensures
        r@ == trim_spec(s@),
{
    let cs = chars_of(s);
    let n = cs.len();
    let mut a: usize = 0;
    while a < n && is_whitespace_char(cs[a])
        invariant
            n == s@.len(),
            cs@ == s@,
            a <= n,
            forall|j: int| 0 <= j < a ==> is_ws(s@[j]),
        decreases n - a,
    {
        a += 1;
    }
    proof {
        lemma_trim_left_skip(s@, a as int);
    }
    if a == n {
        proof {
            assert(s@.subrange(a as int, n as int).len() == 0);
        }
        return String::new();
    }
    // a < n and s@[a] is not whitespace: trim_left(s@) == s@.subrange(a, n)
    proof {
        assert(!is_ws(s@.subrange(a as int, n as int)[0]));
    }
    let mut b: usize = n;
    while b > a && is_whitespace_char(cs[b - 1])
        invariant
            n == s@.len(),
            cs@ == s@,
            a <= b <= n,
            forall|j: int| b <= j < n ==> is_ws(s@[j]),
        decreases b,
    {
        b -= 1;
    }
    // s@[b-1] is not whitespace and b > a
    let r = s.substring_char(a, b);
    proof {
        let tl = s@.subrange(a as int, n as int);
        lemma_trim_right_skip(tl, b - a);
        assert(tl.subrange(0, b - a) =~= s@.subrange(a as int, b as int));
        let tr = s@.subrange(a as int, b as int);
        assert(b - 1 >= a);
        assert(!is_ws(s@[b - 1]));
        assert(tr.len() > 0 && !is_ws(tr.last()));
        assert(trim_right(tr) == tr);
    }
    String::from_str(r)
}

/// Splitting at a separator character, defined one character at a time: every
/// separator ends a piece, and the text after the last separator is a final
/// (possibly empty) piece. Pieces are kept even when empty.
pub open spec fn split_char_acc(s: Seq<char>, sep: char, cur: Seq<char>) -> Seq<Seq<char>>
    decreases s.len(),
{
    if s.len() == 0 {
        seq![cur]
    } else if s[0] == sep {
        seq![cur] + split_char_acc(s.drop_first(), sep, Seq::empty())
    } else {
        split_char_acc(s.drop_first(), sep, cur.push(s[0]))
    }
}

/// The pieces of `s` between occurrences of `sep`, in order.
pub open spec fn split_on_char_spec(s: Seq<char>, sep: char) -> Seq<Seq<char>> {
    split_char_acc(s, sep, Seq::empty())
}

/// The lines of `s`: the pieces between `\n` characters, in order.
pub open spec fn split_lines_spec(s: Seq<char>) -> Seq<Seq<char>> {
    split_on_char_spec(s, '\n')
}

/// Splits a string at every occurrence of a separator character.
pub fn split_on_char(s: &str, sep: char) -> (pieces: Vec<String>)
    ensures
        pieces.deep_view() == split_on_char_spec(s@, sep),
        pieces.len() > 0,
{
    let cs = chars_of(s);
    let n = cs.len();
    let mut pieces: Vec<String> = Vec::new();
    let mut start: usize = 0;
    let mut i: usize = 0;
    proof {
        assert(s@.subrange(0, n as int) =~= s@);
        assert(s@.subrange(0, 0) =~= Seq::<char>::empty());
        assert(pieces.deep_view() + split_char_acc(s@, sep, Seq::empty()) =~= split_on_char_spec(
            s@,
            sep,
        ));
    }
    while i < n
        invariant
            n == s@.len(),
            cs@ == s@,
            start <= i <= n,
            pieces.deep_view() + split_char_acc(
                s@.subrange(i as int, n as int),
                sep,
                s@.subrange(start as int, i as int),
            ) == split_on_char_spec(s@, sep),
        decreases n - i,
    {
        let ghost rem = s@.subrange(i as int, n as int);
        let ghost cur = s@.subrange(start as int, i as int);
        proof {
            assert(rem.drop_first() =~= s@.subrange(i + 1, n as int));
        }
        let c = cs[i];
        if c == sep {
            let w = s.substring_char(start, i);
            pieces.push(String::from_str(w));
            proof {
                assert(pieces.deep_view() =~= pieces.deep_view().drop_last().push(cur));
                assert(pieces.deep_view().drop_last() + (seq![cur] + split_char_acc(
                    rem.drop_first(),
                    sep,
                    Seq::empty(),
                )) =~= pieces.deep_view() + split_char_acc(rem.drop_first(), sep, Seq::empty()));
            }
            start = i + 1;
        } else {
            proof {
                assert(cur.push(s@[i as int]) =~= s@.subrange(start as int, i + 1));
            }
        }
        i += 1;
        proof {
            assert(s@.subrange(start as int, i as int).len() == 0 ==> s@.subrange(
                start as int,
                i as int,
            ) =~= Seq::<char>::empty());
        }
    }
    let w = s.substring_char(start, n);
    pieces.push(String::from_str(w));
    proof {
        let cur = s@.subrange(start as int, n as int);
        assert(split_char_acc(s@.subrange(n as int, n as int), sep, cur) =~= seq![cur]);
        assert(pieces.deep_view() =~= pieces.deep_view().drop_last().push(cur));
        assert(pieces.deep_view().drop_last() + seq![cur] =~= pieces.deep_view());
    }
    pieces
}

/// Splits a string into its lines at `\n` characters.
pub fn split_lines(s: &str) -> (lines: Vec<String>)
    ensures
        lines.deep_view() == split_lines_spec(s@),
        lines.len() > 0,
{
    split_on_char(s, '\n')
}

/// The pattern occurs in `s` at position `i`.
pub open spec fn match_at(s: Seq<char>, pat: Seq<char>, i: int) -> bool {
    0 <= i && i + pat.len() <= s.len() && s.subrange(i, i + pat.len() as int) == pat
}

/// Finds the first occurrence of `pat` in `cs`, if any.
pub fn find_first(cs: &Vec<char>, pat: &Vec<char>) -> (r: Option<usize>)
    requires
        pat.len() > 0,
    ensures
        r matches Some(i) ==> match_at(cs@, pat@, i as int) && (forall|j: int|
            0 <= j < i ==> !match_at(cs@, pat@, j)),
        r is None ==> forall|j: int| !match_at(cs@, pat@, j),
        r matches Some(i) ==> find_sub(cs@, pat@) == Some(i as int),
        r is None ==> find_sub(cs@, pat@) is None,
{
    let n = cs.len();
    let m = pat.len();
    if n < m {
        return None;
    }
    let mut i: usize = 0;
    while i <= n - m
        invariant
            n == cs.len(),
            m == pat.len(),
            1 <= m <= n,
            i <= n - m + 1,
            forall|j: int| 0 <= j < i ==> !match_at(cs@, pat@, j),
        decreases n - i,
    {
        let mut k: usize = 0;
        let mut ok = true;
        while k < m && ok
            invariant
                n == cs.len(),
                m == pat.len(),
                i + m <= n,
                k <= m,
                ok ==> cs@.subrange(i as int, i + k) =~= pat@.subrange(0, k as int),
                !ok ==> !match_at(cs@, pat@, i as int),
            decreases m - k + (if ok {
                1int
            } else {
                0int
            }),
        {
            let ghost prece = cs@.subrange(i as int, i + k);
            let ghost precp = pat@.subrange(0, k as int);
            if cs[i + k] != pat[k] {
                ok = false;
                proof {
                    if match_at(cs@, pat@, i as int) {
                        assert(cs@.subrange(i as int, i + m)[k as int] == pat@[k as int]);
                    }
                }
            } else {
                k += 1;
                proof {
                    assert(cs@.subrange(i as int, i + k) =~= prece.push(cs@[i + k - 1]));
                    assert(pat@.subrange(0, k as int) =~= precp.push(pat@[k - 1]));
                }
            }
        }
        if ok {
            proof {
                assert(pat@.subrange(0, m as int) =~= pat@);
                assert(match_at(cs@, pat@, i as int));
                lemma_find_sub(cs@, pat@);
                match find_sub(cs@, pat@) {
                    Some(f) => {
                        assert(!(f < i) && !(i < f));
                    },
                    None => {
                        assert(false);
                    },
                }
            }
            return Some(i);
        }
        i += 1;
    }
    proof {
        assert(forall|j: int| j > n - m ==> !match_at(cs@, pat@, j));
        lemma_find_sub(cs@, pat@);
        match find_sub(cs@, pat@) {
            Some(f) => {
                assert(match_at(cs@, pat@, f));
                assert(false);
            },
            None => {},
        }
    }
    None
}

/// Decides character-for-character equality of two string slices.
pub fn eq_str(a: &str, b: &str) -> (r: bool)
    ensures
        r == (a@ == b@),
{
    let na = a.unicode_len();
    let nb = b.unicode_len();
    if na != nb {
        return false;
    }
    let mut i: usize = 0;
    while i < na
        invariant
            na == a@.len(),
            na == b@.len(),
            i <= na,
            forall|j: int| 0 <= j < i ==> a@[j] == b@[j],
        decreases na - i,
    {
        if a.get_char(i) != b.get_char(i) {
            return false;
        }
        i += 1;
    }
    proof {
        assert(a@ =~= b@);
    }
    true
}


/// The first position where `pat` occurs in `s`, if any.
pub open spec fn find_sub(s: Seq<char>, pat: Seq<char>) -> Option<int>
    decreases s.len(),
{
    if pat.len() == 0 {
        Some(0)
    } else if s.len() < pat.len() {
        None
    } else if s.subrange(0, pat.len() as int) == pat {
        Some(0)
    } else {
        match find_sub(s.drop_first(), pat) {
            Some(i) => Some(i + 1),
            None => None,
        }
    }
}

/// `find_sub` names the first occurrence: a match stands at the returned
/// position and at none before it; `None` means no occurrence at all.
pub proof fn lemma_find_sub(s: Seq<char>, pat: Seq<char>)
    requires
        pat.len() > 0,
    ensures
        match find_sub(s, pat) {
            Some(i) => match_at(s, pat, i) && (forall|j: int| 0 <= j < i ==> !match_at(s, pat, j)),
            None => forall|j: int| !match_at(s, pat, j),
        },
    decreases s.len(),
{
    if s.len() < pat.len() {
        assert(forall|j: int| !match_at(s, pat, j));
    } else if s.subrange(0, pat.len() as int) == pat {
        assert(match_at(s, pat, 0));
    } else {
        lemma_find_sub(s.drop_first(), pat);
        assert forall|j: int| 0 <= j implies match_at(s.drop_first(), pat, j) == match_at(
            s,
            pat,
            j + 1,
        ) by {
            if j + 1 + pat.len() <= s.len() {
                assert(s.drop_first().subrange(j, j + pat.len() as int) =~= s.subrange(
                    j + 1,
                    j + 1 + pat.len() as int,
                ));
            }
        }
        assert(!match_at(s, pat, 0));
        match find_sub(s.drop_first(), pat) {
            Some(i) => {
                assert(match_at(s, pat, i + 1));
                assert forall|j: int| 0 <= j < i + 1 implies !match_at(s, pat, j) by {
                    if j > 0 {
                        assert(!match_at(s.drop_first(), pat, j - 1));
                    }
                }
            },
            None => {
                assert forall|j: int| !match_at(s, pat, j) by {
                    if j > 0 {
                        assert(!match_at(s.drop_first(), pat, j - 1));
                    }
                }
            },
        }
    }
}

/// The first position of character `c` in `s`, if any.
pub open spec fn index_of_char(s: Seq<char>, c: char) -> Option<int>
    decreases s.len(),
{
    if s.len() == 0 {
        None
    } else if s[0] == c {
        Some(0)
    } else {
        match index_of_char(s.drop_first(), c) {
            Some(i) => Some(i + 1),
            None => None,
        }
    }
}

/// `index_of_char` names the first occurrence of the character.
pub proof fn lemma_index_of_char(s: Seq<char>, c: char)
    ensures
        match index_of_char(s, c) {
            Some(i) => 0 <= i < s.len() && s[i] == c && (forall|j: int| 0 <= j < i ==> s[j] != c),
            None => forall|j: int| 0 <= j < s.len() ==> s[j] != c,
        },
    decreases s.len(),
{
    if s.len() == 0 {
    } else if s[0] == c {
    } else {
        lemma_index_of_char(s.drop_first(), c);
        assert(forall|k: int| 0 <= k < s.len() - 1 ==> s.drop_first()[k] == s[k + 1]);
        match index_of_char(s.drop_first(), c) {
            Some(i) => {
                assert(s.drop_first()[i] == c);
                assert(index_of_char(s, c) == Some(i + 1));
                assert forall|j: int| 0 <= j < i + 1 implies s[j] != c by {
                    if j > 0 {
                        assert(s.drop_first()[j - 1] != c);
                    }
                }
            },
            None => {
                assert forall|j: int| 0 <= j < s.len() implies s[j] != c by {
                    if j > 0 {
                        assert(s.drop_first()[j - 1] != c);
                    }
                }
            },
        }
    }
}

/// Finds the first occurrence of character `c` in `cs`.
pub fn find_char(cs: &Vec<char>, c: char) -> (r: Option<usize>)
    ensures
        r matches Some(i) ==> index_of_char(cs@, c) == Some(i as int),
        r is None ==> index_of_char(cs@, c) is None,
{
    let n = cs.len();
    let mut i: usize = 0;
    while i < n
        invariant
            n == cs.len(),
            i <= n,
            forall|j: int| 0 <= j < i ==> cs@[j] != c,
        decreases n - i,
    {
        if cs[i] == c {
            proof {
                lemma_index_of_char(cs@, c);
                match index_of_char(cs@, c) {
                    Some(k) => {
                        assert(!(k < i) && !(i < k));
                    },
                    None => {
                        assert(false);
                    },
                }
            }
            return Some(i);
        }
        i += 1;
    }
    proof {
        lemma_index_of_char(cs@, c);
    }
    None
}

/// The value without one pair of surrounding quotes, double or single, when
/// both ends carry the same quote; otherwise the value itself.
pub open spec fn strip_quotes(v: Seq<char>) -> Seq<char> {
    if v.len() >= 2 && ((v[0] == '"' && v.last() == '"') || (v[0] == '\'' && v.last()
        == '\'')) {
        v.subrange(1, v.len() - 1)
    } else {
        v
    }
}

/// Removes one pair of surrounding quotes, if present.
pub fn strip_quotes_str(v: &str) -> (r: String)
    ensures
        r@ == strip_quotes(v@),
{
    let n = v.unicode_len();
    if n >= 2 {
        let a = v.get_char(0);
        let b = v.get_char(n - 1);
        if (a == '"' && b == '"') || (a == '\'' && b == '\'') {
            return String::from_str(v.substring_char(1, n - 1));
        }
    }
    String::from_str(v)
}

/// No character of `w` is whitespace.
pub open spec fn ws_free(w: Seq<char>) -> bool {
    forall|j: int| 0 <= j < w.len() ==> !is_ws(w[j])
}

/// Scanning a whitespace-free prefix only extends the pending word.
proof fn lemma_acc_wsfree(a: Seq<char>, b: Seq<char>, cur: Seq<char>)
    requires
        ws_free(a),
    ensures
        split_ws_acc(a + b, cur) == split_ws_acc(b, cur + a),
    decreases a.len(),
{
    if a.len() == 0 {
        assert(a + b =~= b);
        assert(cur + a =~= cur);
    } else {
        assert((a + b)[0] == a[0]);
        assert(!is_ws(a[0]));
        assert((a + b).drop_first() =~= a.drop_first() + b);
        assert(cur.push(a[0]) =~= cur + seq![a[0]]);
        assert(ws_free(a.drop_first()));
        lemma_acc_wsfree(a.drop_first(), b, cur.push(a[0]));
        assert(cur.push(a[0]) + a.drop_first() =~= cur + a);
    }
}

/// Every word that splitting produces is nonempty and whitespace-free.
proof fn lemma_split_words_wsfree(s: Seq<char>, cur: Seq<char>)
    requires
        ws_free(cur),
    ensures
        forall|j: int|
            0 <= j < split_ws_acc(s, cur).len() ==> (#[trigger] split_ws_acc(s, cur)[j]).len() > 0
                && ws_free(split_ws_acc(s, cur)[j]),
    decreases s.len(),
{
    let r = split_ws_acc(s, cur);
    if s.len() == 0 {
        if cur.len() > 0 {
            assert(r == seq![cur]);
            assert(r[0] == cur);
        }
    } else if is_ws(s[0]) {
        lemma_split_words_wsfree(s.drop_first(), Seq::empty());
        let rec = split_ws_acc(s.drop_first(), Seq::empty());
        if cur.len() == 0 {
            assert(r == rec);
            assert forall|j: int| 0 <= j < r.len() implies (#[trigger] r[j]).len() > 0 && ws_free(
                r[j],
            ) by {
                assert(r[j] == rec[j]);
            }
        } else {
            assert(r == seq![cur] + rec);
            assert forall|j: int| 0 <= j < r.len() implies (#[trigger] r[j]).len() > 0 && ws_free(
                r[j],
            ) by {
                if j == 0 {
                    assert(r[0] == cur);
                } else {
                    assert(r[j] == rec[j - 1]);
                }
            }
        }
    } else {
        assert(ws_free(cur.push(s[0]))) by {
            assert(forall|j: int|
                0 <= j < cur.push(s[0]).len() ==> cur.push(s[0])[j] == (if j < cur.len() {
                    cur[j]
                } else {
                    s[0]
                }));
        }
        lemma_split_words_wsfree(s.drop_first(), cur.push(s[0]));
        let rec = split_ws_acc(s.drop_first(), cur.push(s[0]));
        assert(r == rec);
        assert forall|j: int| 0 <= j < r.len() implies (#[trigger] r[j]).len() > 0 && ws_free(
            r[j],
        ) by {
            assert(r[j] == rec[j]);
        }
    }
}

/// Splitting the single-space join of nonempty whitespace-free words gives
/// the words back.
pub proof fn lemma_split_join(ws: Seq<Seq<char>>)
    requires
        forall|j: int| 0 <= j < ws.len() ==> (#[trigger] ws[j]).len() > 0 && ws_free(ws[j]),
    ensures
        split_ws(join_spc(ws)) == ws,
    decreases ws.len(),
{
    if ws.len() == 0 {
        assert(split_ws_acc(Seq::empty(), Seq::empty()) =~= Seq::<Seq<char>>::empty());
    } else if ws.len() == 1 {
        lemma_acc_wsfree(ws[0], Seq::empty(), Seq::empty());
        assert(ws[0] + Seq::empty() =~= ws[0]);
        assert(Seq::empty() + ws[0] =~= ws[0]);
        assert(split_ws_acc(Seq::empty(), ws[0]) =~= seq![ws[0]]);
        assert(seq![ws[0]] =~= ws);
    } else {
        let rest = ws.drop_first();
        let j = join_spc(ws);
        assert(j == ws[0] + seq![' '] + join_spc(rest));
        assert(j =~= ws[0] + (seq![' '] + join_spc(rest)));
        lemma_acc_wsfree(ws[0], seq![' '] + join_spc(rest), Seq::empty());
        assert(Seq::empty() + ws[0] =~= ws[0]);
        let tail = seq![' '] + join_spc(rest);
        assert(tail[0] == ' ');
        assert(is_ws(tail[0]));
        assert(ws[0].len() > 0);
        assert(split_ws_acc(tail, ws[0]) == seq![ws[0]] + split_ws_acc(
            tail.drop_first(),
            Seq::empty(),
        ));
        assert(tail.drop_first() =~= join_spc(rest));
        assert(forall|j: int|
            0 <= j < rest.len() ==> (#[trigger] rest[j]).len() > 0 && ws_free(rest[j]));
        lemma_split_join(rest);
        assert(seq![ws[0]] + rest =~= ws);
    }
}

/// Collapsing is idempotent: the words of a collapsed string are the words of
/// the original, so collapsing again changes nothing.
pub proof fn lemma_collapse_idempotent(s: Seq<char>)
    ensures
        split_ws(join_spc(split_ws(s))) == split_ws(s),
        is_collapsed(join_spc(split_ws(s))),
{
    lemma_split_words_wsfree(s, Seq::empty());
    lemma_split_join(split_ws(s));
}


/// The decimal digit characters.
pub open spec fn dec_digit(n: int) -> char {
    seq!['0', '1', '2', '3', '4', '5', '6', '7', '8', '9'][n]
}

/// The decimal digits of a nonnegative number, most significant first.
pub open spec fn dec_digits(n: int) -> Seq<char>
    decreases n,
{
    if n < 10 {
        seq![dec_digit(if n < 0 {
            0
        } else {
            n
        })]
    } else {
        dec_digits(n / 10).push(dec_digit(n % 10))
    }
}

/// The decimal rendering of an integer, with a leading minus when negative.
pub open spec fn dec_of_int(n: int) -> Seq<char> {
    if n < 0 {
        seq!['-'] + dec_digits(-n)
    } else {
        dec_digits(n)
    }
}

fn dec_char_str(n: u64) -> (r: &'static str)
    requires
        n < 10,
    ensures
        r@ == seq![dec_digit(n as int)],
{
    proof {
        reveal_strlit("0");
        reveal_strlit("1");
        reveal_strlit("2");
        reveal_strlit("3");
        reveal_strlit("4");
        reveal_strlit("5");
        reveal_strlit("6");
        reveal_strlit("7");
        reveal_strlit("8");
        reveal_strlit("9");
    }
    match n {
        0 => "0",
        1 => "1",
        2 => "2",
        3 => "3",
        4 => "4",
        5 => "5",
        6 => "6",
        7 => "7",
        8 => "8",
        _ => "9",
    }
}

/// Renders a nonnegative number in decimal.
pub fn u64_to_dec(n: u64) -> (r: String)
    ensures
        r@ == dec_digits(n as int),
    decreases n,
{
    if n < 10 {
        return String::from_str(dec_char_str(n));
    }
    let mut r = u64_to_dec(n / 10);
    r.append(dec_char_str(n % 10));
    proof {
        assert(r@ =~= dec_digits((n / 10) as int).push(dec_digit((n % 10) as int)));
    }
    r
}

/// Renders a signed number in decimal.
pub fn i64_to_dec(n: i64) -> (r: String)
    ensures
        r@ == dec_of_int(n as int),
{
    if n >= 0 {
        u64_to_dec(n as u64)
    } else {
        let m = (-(n as i128)) as u64;
        let mut r = String::from_str("-");
        r.append(u64_to_dec(m).as_str());
        proof {
            reveal_strlit("-");
            assert(r@ =~= seq!['-'] + dec_digits(-(n as int)));
        }
        r
    }
}


/// Joining parts with a fixed separator between consecutive parts.
pub open spec fn join_sep(parts: Seq<Seq<char>>, sep: Seq<char>) -> Seq<char>
    decreases parts.len(),
{
    if parts.len() == 0 {
        Seq::empty()
    } else if parts.len() == 1 {
        parts[0]
    } else {
        parts[0] + sep + join_sep(parts.drop_first(), sep)
    }
}

/// Appending one more part to a separated join: the separator is added
/// exactly when earlier parts exist.
pub proof fn lemma_join_sep_push(parts: Seq<Seq<char>>, sep: Seq<char>, p: Seq<char>)
    ensures
        join_sep(parts.push(p), sep) == if parts.len() == 0 {
            p
        } else {
            join_sep(parts, sep) + sep + p
        },
    decreases parts.len(),
{
    if parts.len() == 0 {
        assert(parts.push(p) =~= seq![p]);
    } else if parts.len() == 1 {
        assert(parts.push(p).drop_first() =~= seq![p]);
        assert(join_sep(seq![p], sep) == p);
        assert(join_sep(parts.push(p), sep) == parts[0] + sep + p);
    } else {
        lemma_join_sep_push(parts.drop_first(), sep, p);
        assert(parts.push(p).drop_first() =~= parts.drop_first().push(p));
        assert(join_sep(parts.push(p), sep) =~= join_sep(parts, sep) + sep + p);
    }
}

/// Joins parts with a separator string.
pub fn join_parts(parts: &Vec<String>, sep: &str) -> (r: String)
    ensures
        r@ == join_sep(parts.deep_view(), sep@),
{
    let n = parts.len();
    let mut r = String::new();
    let mut i: usize = 0;
    proof {
        assert(parts.deep_view().subrange(0, 0) =~= Seq::<Seq<char>>::empty());
    }
    while i < n
        invariant
            n == parts.len(),
            i <= n,
            parts.deep_view().len() == n,
            r@ == join_sep(parts.deep_view().subrange(0, i as int), sep@),
        decreases n - i,
    {
        let ghost pre = parts.deep_view().subrange(0, i as int);
        proof {
            assert(pre.len() == i);
        }
        if i > 0 {
            r.append(sep);
        }
        r.append(parts[i].as_str());
        i += 1;
        proof {
            let post = parts.deep_view().subrange(0, i as int);
            assert(post =~= pre.push(parts.deep_view()[i - 1]));
            assert(parts.deep_view()[i - 1] == parts@[i - 1]@);
            lemma_join_sep_push(pre, sep@, parts.deep_view()[i - 1]);
            if pre.len() == 0 {
                assert(r@ =~= join_sep(post, sep@));
            } else {
                assert(r@ =~= join_sep(pre, sep@) + sep@ + parts.deep_view()[i - 1]);
            }
        }
    }
    proof {
        assert(parts.deep_view().subrange(0, n as int) =~= parts.deep_view());
    }
    r
}


/// No character of `w` is the character `c`.
pub open spec fn has_no_char(w: Seq<char>, c: char) -> bool {
    forall|j: int| 0 <= j < w.len() ==> w[j] != c
}

/// Every piece that splitting produces is free of the separator.
pub proof fn lemma_split_pieces_no_sep(s: Seq<char>, sep: char, cur: Seq<char>)
    requires
        has_no_char(cur, sep),
    ensures
        forall|j: int|
            0 <= j < split_char_acc(s, sep, cur).len() ==> has_no_char(
                #[trigger] split_char_acc(s, sep, cur)[j],
                sep,
            ),
    decreases s.len(),
{
    let r = split_char_acc(s, sep, cur);
    if s.len() == 0 {
        assert(r == seq![cur]);
        assert(r[0] == cur);
    } else if s[0] == sep {
        lemma_split_pieces_no_sep(s.drop_first(), sep, Seq::empty());
        let rec = split_char_acc(s.drop_first(), sep, Seq::empty());
        assert(r == seq![cur] + rec);
        assert forall|j: int| 0 <= j < r.len() implies has_no_char(#[trigger] r[j], sep) by {
            if j == 0 {
                assert(r[0] == cur);
            } else {
                assert(r[j] == rec[j - 1]);
            }
        }
    } else {
        assert(has_no_char(cur.push(s[0]), sep)) by {
            assert(forall|j: int|
                0 <= j < cur.push(s[0]).len() ==> cur.push(s[0])[j] == (if j < cur.len() {
                    cur[j]
                } else {
                    s[0]
                }));
        }
        lemma_split_pieces_no_sep(s.drop_first(), sep, cur.push(s[0]));
        let rec = split_char_acc(s.drop_first(), sep, cur.push(s[0]));
        assert(r == rec);
        assert forall|j: int| 0 <= j < r.len() implies has_no_char(#[trigger] r[j], sep) by {
            assert(r[j] == rec[j]);
        }
    }
}

} // verus!
