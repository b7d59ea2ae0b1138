//! Text as lists of characters.
use vstd::prelude::*;

use crate::seqs;

verus! {

/// `String::push`: one more character at the end.
pub assume_specification[ String::push ](s: &mut String, c: char)
    ensures
        final(s)@ == old(s)@.push(c),
;

/// The characters of a text.
pub fn chars_of(s: &str) -> (r: Vec<char>)
    ensures
        r@ == s@,
{
    let mut out: Vec<char> = Vec::new();
    for c in it: s.chars()
        invariant
            it.seq() == s@,
            out@ == s@.take(it.index() as int),
    {
        proof {
            seqs::lemma_take_next(s@, it.index() as int);
        }
        out.push(c);
    }
    proof {
        seqs::lemma_take_all(s@);
    }
    out
}

/// The text of a list of characters.
pub fn string_of(chars: &Vec<char>) -> (r: String)
    ensures
        r@ == chars@,
{
    let mut out = String::new();
    let mut i: usize = 0;
    while i < chars.len()
        invariant
            i <= chars@.len(),
            out@ == chars@.take(i as int),
        decreases chars.len() - i,
    {
        proof {
            seqs::lemma_take_next(chars@, i as int);
        }
        out.push(chars[i]);
        i += 1;
    }
    proof {
        seqs::lemma_take_all(chars@);
    }
    out
}

/// Whether two lists of characters are the same.
pub fn same_chars(a: &Vec<char>, b: &Vec<char>) -> (r: bool)
    ensures
        r == (a@ == b@),
{
    if a.len() != b.len() {
        return false;
    }
    let mut i: usize = 0;
    while i < a.len()
        invariant
            i <= a@.len() == b@.len(),
            forall|k: int| 0 <= k < i ==> a@[k] == b@[k],
        decreases a.len() - i,
    {
        if a[i] != b[i] {
            return false;
        }
        i += 1;
    }
    assert(a@ =~= b@);
    true
}

/// Whether two texts are the same.
pub fn same_text(a: &str, b: &str) -> (r: bool)
    ensures
        r == (a@ == b@),
{
    let x = chars_of(a);
    let y = chars_of(b);
    same_chars(&x, &y)
}

/// White space: the characters that Unicode marks so.
pub open spec fn blank(c: char) -> bool {
    let n = c as int;
    9 <= n <= 13 || n == 0x20 || n == 0x85 || n == 0xa0 || n == 0x1680 || 0x2000 <= n <= 0x200a || n == 0x2028 || n == 0x2029 || n == 0x202f || n == 0x205f || n == 0x3000
}

/// Whether a character is white space.
pub fn is_blank(c: char) -> (r: bool)
    ensures
        r == blank(c),
{
    let n: u32 = c as u32;
    (9 <= n && n <= 13) || n == 0x20 || n == 0x85 || n == 0xa0 || n == 0x1680 || (0x2000 <= n && n <= 0x200a) || n == 0x2028 || n == 0x2029 || n == 0x202f || n == 0x205f || n == 0x3000
}

/// Without the white space in front.
pub open spec fn trim_front(s: Seq<char>) -> Seq<char>
    decreases s.len(),
{
    if s.len() > 0 && blank(s[0]) {
        trim_front(s.drop_first())
    } else {
        s
    }
}

/// Without the white space at the end.
pub open spec fn trim_back(s: Seq<char>) -> Seq<char>
    decreases s.len(),
{
    if s.len() > 0 && blank(s.last()) {
        trim_back(s.drop_last())
    } else {
        s
    }
}

/// Without the white space at both ends.
pub open spec fn trimmed(s: Seq<char>) -> Seq<char> {
    trim_back(trim_front(s))
}

/// Trimming the end leaves the first character where it is, unless nothing is left.
pub proof fn lemma_trim_head(s: Seq<char>)
    ensures
        trimmed(s).len() > 0 <==> trim_front(s).len() > 0,
        trimmed(s).len() > 0 ==> trimmed(s)[0] == trim_front(s)[0],
{
    lemma_front_stops(s);
    lemma_back_keeps(trim_front(s));
}

proof fn lemma_front_stops(s: Seq<char>)
    ensures
        trim_front(s).len() > 0 ==> !blank(trim_front(s)[0]),
    decreases s.len(),
{
    if s.len() > 0 && blank(s[0]) {
        lemma_front_stops(s.drop_first());
    }
}

proof fn lemma_back_keeps(s: Seq<char>)
    requires
        s.len() > 0 ==> !blank(s[0]),
    ensures
        trim_back(s).len() > 0 <==> s.len() > 0,
        s.len() > 0 ==> trim_back(s)[0] == s[0],
    decreases s.len(),
{
    if s.len() > 0 && blank(s.last()) {
        lemma_back_keeps(s.drop_last());
    }
}

proof fn lemma_trim_front(s: Seq<char>, i: int)
    requires
        0 <= i <= s.len(),
        forall|k: int| 0 <= k < i ==> blank(#[trigger] s[k]),
        i < s.len() ==> !blank(s[i]),
    ensures
        trim_front(s) == s.skip(i),
    decreases i,
{
    if i == 0 {
        assert(s.skip(0) =~= s);
    } else {
        assert(blank(s[0]));
        let t = s.drop_first();
        assert forall|k: int| 0 <= k < i - 1 implies blank(#[trigger] t[k]) by {
            assert(t[k] == s[k + 1]);
        }
        lemma_trim_front(t, i - 1);
        assert(t.skip(i - 1) =~= s.skip(i));
    }
}

proof fn lemma_trim_back(s: Seq<char>, j: int)
    requires
        0 <= j <= s.len(),
        forall|k: int| j <= k < s.len() ==> blank(#[trigger] s[k]),
        j > 0 ==> !blank(s[j - 1]),
    ensures
        trim_back(s) == s.take(j),
    decreases s.len() - j,
{
    if j == s.len() {
        assert(s.take(j) =~= s);
    } else {
        assert(blank(s[s.len() - 1]));
        let t = s.drop_last();
        assert forall|k: int| j <= k < t.len() implies blank(#[trigger] t[k]) by {
            assert(t[k] == s[k]);
        }
        lemma_trim_back(t, j);
        assert(t.take(j) =~= s.take(j));
    }
}

/// A part of a list of characters.
pub fn part(s: &Vec<char>, from: usize, to: usize) -> (r: Vec<char>)
    requires
        from <= to <= s@.len(),
    ensures
        r@ == s@.subrange(from as int, to as int),
{
    let mut out: Vec<char> = Vec::new();
    let mut i: usize = from;
    while i < to
        invariant
            from <= i <= to <= s@.len(),
            out@ == s@.subrange(from as int, i as int),
        decreases to - i,
    {
        out.push(s[i]);
        assert(s@.subrange(from as int, i + 1) =~= s@.subrange(from as int, i as int).push(s@[i as int]));
        i += 1;
    }
    out
}

/// Without the white space at both ends.
pub fn trim(s: &Vec<char>) -> (r: Vec<char>)
    ensures
        r@ == trimmed(s@),
{
    let mut i: usize = 0;
    while i < s.len() && is_blank(s[i])
        invariant
            i <= s@.len(),
            forall|k: int| 0 <= k < i ==> blank(#[trigger] s@[k]),
        decreases s.len() - i,
    {
        i += 1;
    }
    let ghost t = s@.skip(i as int);
    proof {
        lemma_trim_front(s@, i as int);
    }
    let mut j: usize = s.len();
    while j > i && is_blank(s[j - 1])
        invariant
            i <= j <= s@.len(),
            t == s@.skip(i as int),
            forall|k: int| j <= k < s@.len() ==> blank(#[trigger] s@[k]),
        decreases j,
    {
        j -= 1;
    }
    proof {
        assert forall|k: int| j - i <= k < t.len() implies blank(#[trigger] t[k]) by {
            assert(t[k] == s@[k + i]);
        }
        lemma_trim_back(t, j - i);
        assert(t.take(j - i) =~= s@.subrange(i as int, j as int));
    }
    part(s, i, j)
}

/// The texts of lists of characters.
pub open spec fn views(v: Seq<Vec<char>>) -> Seq<Seq<char>> {
    v.map_values(|w: Vec<char>| w@)
}

/// The words of a text: a character that is not white space goes on the word before it, or
/// starts one after white space.
pub open spec fn words(s: Seq<char>) -> Seq<Seq<char>>
    decreases s.len(),
{
    if s.len() == 0 {
        Seq::empty()
    } else {
        let before = words(s.drop_last());
        if blank(s.last()) {
            before
        } else if s.len() == 1 || blank(s[s.len() - 2]) {
            before.push(seq![s.last()])
        } else {
            before.update(before.len() - 1, before.last().push(s.last()))
        }
    }
}

/// The lines of a text: a line feed ends a line.
pub open spec fn lines(s: Seq<char>) -> Seq<Seq<char>>
    decreases s.len(),
{
    if s.len() == 0 {
        Seq::empty()
    } else {
        let before = lines(s.drop_last());
        let fresh = s.len() == 1 || s[s.len() - 2] == '\n';
        if s.last() == '\n' {
            if fresh {
                before.push(Seq::empty())
            } else {
                before
            }
        } else if fresh {
            before.push(seq![s.last()])
        } else {
            before.update(before.len() - 1, before.last().push(s.last()))
        }
    }
}

proof fn lemma_words_some(s: Seq<char>)
    requires
        s.len() > 0,
        !blank(s.last()),
    ensures
        words(s).len() > 0,
    decreases s.len(),
{
    if s.len() > 1 && !blank(s[s.len() - 2]) {
        lemma_words_some(s.drop_last());
    }
}

/// No word is empty.
pub proof fn lemma_words_nonempty(s: Seq<char>, k: int)
    requires
        0 <= k < words(s).len(),
    ensures
        words(s)[k].len() > 0,
    decreases s.len(),
{
    if s.len() > 0 {
        let before = words(s.drop_last());
        if s.len() > 1 && !blank(s[s.len() - 2]) {
            lemma_words_some(s.drop_last());
        }
        if k < before.len() {
            lemma_words_nonempty(s.drop_last(), k);
        }
    }
}

proof fn lemma_lines_some(s: Seq<char>)
    requires
        s.len() > 0,
        s.last() != '\n',
    ensures
        lines(s).len() > 0,
    decreases s.len(),
{
    if s.len() > 1 && s[s.len() - 2] != '\n' {
        lemma_lines_some(s.drop_last());
    }
}

/// Append a character to the last of some texts.
fn append_last(v: &mut Vec<Vec<char>>, c: char)
    requires
        old(v)@.len() > 0,
    ensures
        views(final(v)@) == views(old(v)@).update(old(v)@.len() - 1, views(old(v)@).last().push(c)),
{
    let ghost v0 = v@;
    match v.pop() {
        Some(w) => {
            let mut word = w;
            word.push(c);
            v.push(word);
            assert(views(v@) =~= views(v0).update(v0.len() - 1, views(v0).last().push(c)));
        },
        None => {},
    }
}

/// The words of a text.
pub fn split_words(s: &Vec<char>) -> (r: Vec<Vec<char>>)
    ensures
        views(r@) == words(s@),
{
    let mut out: Vec<Vec<char>> = Vec::new();
    let mut i: usize = 0;
    assert(views(out@) =~= words(s@.take(0)));
    while i < s.len()
        invariant
            i <= s@.len(),
            views(out@) == words(s@.take(i as int)),
        decreases s.len() - i,
    {
        let ghost t = s@.take(i + 1);
        let ghost before = out@;
        proof {
            assert(t.drop_last() =~= s@.take(i as int));
            assert(t.last() == s@[i as int]);
            assert(before.len() == views(before).len());
        }
        let c = s[i];
        if !is_blank(c) {
            if i == 0 || is_blank(s[i - 1]) {
                let word: Vec<char> = vec![c];
                out.push(word);
                proof {
                    assert(word@ =~= seq![c]);
                    assert(views(out@) =~= views(before).push(seq![c]));
                }
            } else {
                proof {
                    assert(s@.take(i as int).last() == s@[i - 1]);
                    lemma_words_some(s@.take(i as int));
                }
                append_last(&mut out, c);
            }
        }
        i += 1;
    }
    proof {
        seqs::lemma_take_all(s@);
    }
    out
}

/// The lines of a text.
pub fn split_lines(s: &Vec<char>) -> (r: Vec<Vec<char>>)
    ensures
        views(r@) == lines(s@),
{
    let mut out: Vec<Vec<char>> = Vec::new();
    let mut i: usize = 0;
    assert(views(out@) =~= lines(s@.take(0)));
    while i < s.len()
        invariant
            i <= s@.len(),
            views(out@) == lines(s@.take(i as int)),
        decreases s.len() - i,
    {
        let ghost t = s@.take(i + 1);
        let ghost before = out@;
        proof {
            assert(t.drop_last() =~= s@.take(i as int));
            assert(t.last() == s@[i as int]);
            assert(before.len() == views(before).len());
        }
        let c = s[i];
        let fresh = i == 0 || s[i - 1] == '\n';
        if c == '\n' {
            if fresh {
                let line: Vec<char> = Vec::new();
                out.push(line);
                proof {
                    assert(line@ =~= Seq::<char>::empty());
                    assert(views(out@) =~= views(before).push(Seq::empty()));
                }
            }
        } else if fresh {
            let line: Vec<char> = vec![c];
            out.push(line);
            proof {
                assert(line@ =~= seq![c]);
                assert(views(out@) =~= views(before).push(seq![c]));
            }
        } else {
            proof {
                assert(s@.take(i as int).last() == s@[i - 1]);
                lemma_lines_some(s@.take(i as int));
            }
            append_last(&mut out, c);
        }
        i += 1;
    }
    proof {
        seqs::lemma_take_all(s@);
    }
    out
}

/// Where a character first stands, or the length of the text.
pub open spec fn first_at(s: Seq<char>, c: char) -> int
    decreases s.len(),
{
    if s.len() == 0 || s[0] == c {
        0
    } else {
        1 + first_at(s.drop_first(), c)
    }
}

pub proof fn lemma_first_at(s: Seq<char>, c: char, i: int)
    requires
        0 <= i <= s.len(),
        forall|k: int| 0 <= k < i ==> #[trigger] s[k] != c,
        i < s.len() ==> s[i] == c,
    ensures
        first_at(s, c) == i,
    decreases i,
{
    if i > 0 {
        assert(s[0] != c);
        let t = s.drop_first();
        assert forall|k: int| 0 <= k < i - 1 implies #[trigger] t[k] != c by {
            assert(t[k] == s[k + 1]);
        }
        lemma_first_at(t, c, i - 1);
    }
}

/// Where a character first stands.
pub fn find_char(s: &Vec<char>, c: char) -> (r: usize)
    ensures
        r == first_at(s@, c),
        r <= s@.len(),
{
    let mut i: usize = 0;
    while i < s.len() && s[i] != c
        invariant
            i <= s@.len(),
            forall|k: int| 0 <= k < i ==> #[trigger] s@[k] != c,
        decreases s.len() - i,
    {
        i += 1;
    }
    proof {
        lemma_first_at(s@, c, i as int);
    }
    i
}

/// A decimal digit.
pub open spec fn digit(c: char) -> bool {
    '0' <= c <= '9'
}

/// One or more digits.
pub open spec fn all_digits(s: Seq<char>) -> bool {
    s.len() > 0 && forall|k: int| 0 <= k < s.len() ==> digit(#[trigger] s[k])
}

/// The number that digits are.
pub open spec fn digits_number(s: Seq<char>) -> nat
    decreases s.len(),
{
    if s.len() == 0 {
        0
    } else {
        (digits_number(s.drop_last()) * 10 + (s.last() as int - '0' as int)) as nat
    }
}

/// Without one leading plus sign.
pub open spec fn after_plus(s: Seq<char>) -> Seq<char> {
    if s.len() > 0 && s[0] == '+' {
        s.drop_first()
    } else {
        s
    }
}

/// The number that a text is: digits, with or without a plus sign.
pub open spec fn unsigned(s: Seq<char>) -> Option<int> {
    if all_digits(after_plus(s)) {
        Some(digits_number(after_plus(s)) as int)
    } else {
        None
    }
}

/// The number that a text is: digits, with or without a sign.
pub open spec fn signed(s: Seq<char>) -> Option<int> {
    if s.len() > 0 && s[0] == '-' {
        if all_digits(s.drop_first()) {
            Some(-(digits_number(s.drop_first()) as int))
        } else {
            None
        }
    } else {
        unsigned(s)
    }
}

/// The number of the digits from `from` on, up to a limit.
fn read_digits(s: &Vec<char>, from: usize, limit: u128) -> (r: Option<u128>)
    requires
        from <= s@.len(),
    ensures
        match r {
            Some(n) => all_digits(s@.skip(from as int)) && n == digits_number(s@.skip(from as int)) && n <= limit,
            None => !all_digits(s@.skip(from as int)) || digits_number(s@.skip(from as int)) > limit,
        },
{
    let ghost t = s@.skip(from as int);
    if from == s.len() {
        return None;
    }
    let mut n: u128 = 0;
    let mut over = false;
    let mut i: usize = from;
    assert(t.take(0) =~= Seq::<char>::empty());
    while i < s.len()
        invariant
            from <= i <= s@.len(),
            t == s@.skip(from as int),
            forall|k: int| 0 <= k < i - from ==> digit(#[trigger] t[k]),
            n <= limit,
            over ==> digits_number(t.take(i - from)) > limit,
            !over ==> n == digits_number(t.take(i - from)),
        decreases s.len() - i,
    {
        let c = s[i];
        assert(t[i - from] == c);
        if c < '0' || c > '9' {
            assert(!digit(t[i - from]));
            return None;
        }
        let ghost u = t.take(i - from + 1);
        proof {
            assert(u.drop_last() =~= t.take(i - from));
            assert(u.last() == c);
        }
        let d: u128 = (c as u32 - '0' as u32) as u128;
        if !over {
            if d > limit || n > (limit - d) / 10 {
                over = true;
            } else {
                n = n * 10 + d;
            }
        }
        i += 1;
    }
    proof {
        seqs::lemma_take_all(t);
        assert(i - from == t.len());
    }
    if over {
        None
    } else {
        Some(n)
    }
}

/// Read a number without a minus sign, up to a limit.
pub fn parse_u128(s: &Vec<char>, limit: u128) -> (r: Option<u128>)
    ensures
        match r {
            Some(n) => unsigned(s@) == Some(n as int) && n <= limit,
            None => unsigned(s@) is None || unsigned(s@)->0 > limit,
        },
{
    if s.len() > 0 && s[0] == '+' {
        assert(s@.skip(1) =~= s@.drop_first());
        read_digits(s, 1, limit)
    } else {
        assert(s@.skip(0) =~= s@);
        read_digits(s, 0, limit)
    }
}

/// Read a number without a minus sign, up to a limit.
pub fn parse_unsigned(s: &Vec<char>, limit: u64) -> (r: Option<u64>)
    ensures
        match r {
            Some(n) => unsigned(s@) == Some(n as int) && n <= limit,
            None => unsigned(s@) is None || unsigned(s@)->0 > limit,
        },
{
    match parse_u128(s, limit as u128) {
        Some(n) => Some(n as u64),
        None => None,
    }
}

/// Read a number of variables or an id.
pub fn parse_usize(s: &Vec<char>) -> (r: Option<usize>)
    ensures
        match r {
            Some(n) => unsigned(s@) == Some(n as int),
            None => unsigned(s@) is None || unsigned(s@)->0 > usize::MAX,
        },
{
    match parse_unsigned(s, usize::MAX as u64) {
        Some(n) => Some(n as usize),
        None => None,
    }
}

/// Read a number with or without a sign.
pub fn parse_i64(s: &Vec<char>) -> (r: Option<i64>)
    ensures
        match r {
            Some(n) => signed(s@) == Some(n as int),
            None => signed(s@) is None || signed(s@)->0 > i64::MAX || signed(s@)->0 < i64::MIN,
        },
{
    if s.len() > 0 && s[0] == '-' {
        assert(s@.skip(1) =~= s@.drop_first());
        match read_digits(s, 1, 0x8000_0000_0000_0000) {
            Some(n) => Some((0i128 - n as i128) as i64),
            None => None,
        }
    } else {
        match parse_unsigned(s, i64::MAX as u64) {
            Some(n) => Some(n as i64),
            None => None,
        }
    }
}

/// Whether a list of characters is a text.
pub fn is_text(s: &Vec<char>, t: &str) -> (r: bool)
    ensures
        r == (s@ == t@),
{
    let u = chars_of(t);
    same_chars(s, &u)
}

/// A copy of a text.
pub fn copy_text(t: &str) -> (r: String)
    ensures
        r@ == t@,
{
    let u = chars_of(t);
    string_of(&u)
}

} // verus!
