//! What is made of texts: trimming, words and lines.
use vstd::prelude::*;

use crate::text;

verus! {

/// White space only, possibly none.
pub open spec fn all_blank(s: Seq<char>) -> bool {
    forall|k: int| 0 <= k < s.len() ==> text::blank(#[trigger] s[k])
}

/// No white space.
pub open spec fn none_blank(s: Seq<char>) -> bool {
    forall|k: int| 0 <= k < s.len() ==> !text::blank(#[trigger] s[k])
}

/// No line feed.
pub open spec fn one_line(s: Seq<char>) -> bool {
    forall|k: int| 0 <= k < s.len() ==> (#[trigger] s[k]) != '\n'
}

proof fn lemma_front(p: Seq<char>, t: Seq<char>)
    requires
        all_blank(p),
        t.len() > 0 ==> !text::blank(t[0]),
    ensures
        text::trim_front(p + t) == t,
    decreases p.len(),
{
    if p.len() == 0 {
        assert(p + t =~= t);
    } else {
        let q = p.drop_first();
        assert forall|k: int| 0 <= k < q.len() implies text::blank(#[trigger] q[k]) by {
            assert(q[k] == p[k + 1]);
        }
        lemma_front(q, t);
        assert((p + t).drop_first() =~= q + t);
        assert((p + t)[0] == p[0]);
    }
}

proof fn lemma_back(t: Seq<char>, q: Seq<char>)
    requires
        all_blank(q),
        t.len() > 0 ==> !text::blank(t.last()),
    ensures
        text::trim_back(t + q) == t,
    decreases q.len(),
{
    if q.len() == 0 {
        assert(t + q =~= t);
    } else {
        let r = q.drop_last();
        assert forall|k: int| 0 <= k < r.len() implies text::blank(#[trigger] r[k]) by {
            assert(r[k] == q[k]);
        }
        lemma_back(t, r);
        assert((t + q).drop_last() =~= t + r);
        assert((t + q).last() == q[q.len() - 1]);
    }
}

/// Trimming takes the white space off both ends, all of it and nothing else.
pub proof fn law_trimming(p: Seq<char>, t: Seq<char>, q: Seq<char>)
    requires
        all_blank(p),
        all_blank(q),
        t.len() > 0 ==> !text::blank(t[0]) && !text::blank(t.last()),
    ensures
        text::trimmed(p + t + q) == t,
{
    if t.len() == 0 {
        assert(p + t + q =~= (p + q) + t);
        assert forall|k: int| 0 <= k < (p + q).len() implies text::blank(#[trigger] (p + q)[k]) by {
            if k < p.len() {
                assert((p + q)[k] == p[k]);
            } else {
                assert((p + q)[k] == q[k - p.len()]);
            }
        }
        lemma_front(p + q, t);
    } else {
        assert(p + t + q =~= p + (t + q));
        assert((t + q)[0] == t[0]);
        lemma_front(p, t + q);
        lemma_back(t, q);
    }
}

proof fn lemma_words_of_blanks(s: Seq<char>)
    requires
        all_blank(s),
    ensures
        text::words(s) == Seq::<Seq<char>>::empty(),
    decreases s.len(),
{
    if s.len() > 0 {
        let t = s.drop_last();
        assert forall|k: int| 0 <= k < t.len() implies text::blank(#[trigger] t[k]) by {
            assert(t[k] == s[k]);
        }
        lemma_words_of_blanks(t);
        assert(text::blank(s[s.len() - 1]));
    }
}

/// The words of a text are those before a white space followed by those behind it.
pub proof fn law_white_space_parts_words(a: Seq<char>, c: char, b: Seq<char>)
    requires
        text::blank(c),
    ensures
        text::words(a + seq![c] + b) == text::words(a) + text::words(b),
    decreases b.len(),
{
    let s = a + seq![c] + b;
    if b.len() == 0 {
        assert(s.drop_last() =~= a);
        assert(s.last() == c);
        assert(text::words(a) + text::words(b) =~= text::words(a));
    } else {
        let t = b.drop_last();
        law_white_space_parts_words(a, c, t);
        assert(s.drop_last() =~= a + seq![c] + t);
        assert(s.last() == b.last());
        let wa = text::words(a);
        let before = text::words(t);
        if text::blank(b.last()) {
        } else if b.len() == 1 {
            assert(s[s.len() - 2] == c);
            assert((wa + before).push(seq![b.last()]) =~= wa + before.push(seq![b.last()]));
        } else {
            assert(s[s.len() - 2] == b[b.len() - 2]);
            if text::blank(b[b.len() - 2]) {
                assert((wa + before).push(seq![b.last()]) =~= wa + before.push(seq![b.last()]));
            } else {
                lemma_open_word(t);
                let w = before.last().push(b.last());
                assert((wa + before).last() == before.last());
                assert((wa + before).update((wa + before).len() - 1, w) =~= wa + before.update(before.len() - 1, w));
            }
        }
    }
}

proof fn lemma_open_word(s: Seq<char>)
    requires
        s.len() > 0,
        !text::blank(s.last()),
    ensures
        text::words(s).len() > 0,
    decreases s.len(),
{
    if s.len() > 1 && !text::blank(s[s.len() - 2]) {
        lemma_open_word(s.drop_last());
    }
}

/// White space alone has no words, and a text without white space is one word.
pub proof fn law_single_words(s: Seq<char>)
    ensures
        all_blank(s) ==> text::words(s) == Seq::<Seq<char>>::empty(),
        s.len() > 0 && none_blank(s) ==> text::words(s) == seq![s],
{
    if all_blank(s) {
        lemma_words_of_blanks(s);
    }
    if s.len() > 0 && none_blank(s) {
        crate::laws::weights::lemma_one_word(s);
    }
}

proof fn lemma_open_line(s: Seq<char>)
    requires
        s.len() > 0,
        s.last() != '\n',
    ensures
        text::lines(s).len() > 0,
    decreases s.len(),
{
    if s.len() > 1 && s[s.len() - 2] != '\n' {
        lemma_open_line(s.drop_last());
    }
}

proof fn lemma_one_line(s: Seq<char>)
    requires
        s.len() > 0,
        one_line(s),
    ensures
        text::lines(s) == seq![s],
    decreases s.len(),
{
    let t = s.drop_last();
    assert(s[s.len() - 1] != '\n');
    if s.len() == 1 {
        assert(text::lines(t) =~= Seq::<Seq<char>>::empty());
        assert(s =~= seq![s.last()]);
        assert(text::lines(s) =~= seq![s]);
    } else {
        assert forall|k: int| 0 <= k < t.len() implies (#[trigger] t[k]) != '\n' by {
            assert(t[k] == s[k]);
        }
        lemma_one_line(t);
        assert(s[s.len() - 2] != '\n');
        assert(t.push(s.last()) =~= s);
        assert(text::lines(s) =~= seq![s]);
    }
}

/// A text without a line feed is one line, with a line feed behind it too; the empty text has no line.
pub proof fn law_single_lines(s: Seq<char>)
    requires
        one_line(s),
    ensures
        text::lines(s.push('\n')) == seq![s],
        text::lines(s) == (if s.len() == 0 {
            Seq::empty()
        } else {
            seq![s]
        }),
{
    let t = s.push('\n');
    assert(t.drop_last() =~= s);
    if s.len() == 0 {
        assert(s =~= Seq::<char>::empty());
        assert(text::lines(s) =~= Seq::<Seq<char>>::empty());
        assert(text::lines(t) =~= seq![s]);
    } else {
        lemma_one_line(s);
        assert(t[t.len() - 2] == s[s.len() - 1]);
    }
}

/// The lines of a text are those up to a line feed followed by those behind it.
pub proof fn law_line_feeds_part_lines(a: Seq<char>, b: Seq<char>)
    ensures
        text::lines(a.push('\n') + b) == text::lines(a.push('\n')) + text::lines(b),
    decreases b.len(),
{
    let s = a.push('\n') + b;
    let la = text::lines(a.push('\n'));
    if b.len() == 0 {
        assert(s =~= a.push('\n'));
        assert(la + text::lines(b) =~= la);
    } else {
        let t = b.drop_last();
        law_line_feeds_part_lines(a, t);
        assert(s.drop_last() =~= a.push('\n') + t);
        assert(s.last() == b.last());
        let before = text::lines(t);
        let fresh = b.len() == 1 || b[b.len() - 2] == '\n';
        if b.len() == 1 {
            assert(s[s.len() - 2] == '\n');
        } else {
            assert(s[s.len() - 2] == b[b.len() - 2]);
        }
        if b.last() == '\n' {
            if fresh {
                assert((la + before).push(Seq::empty()) =~= la + before.push(Seq::empty()));
            }
        } else if fresh {
            assert((la + before).push(seq![b.last()]) =~= la + before.push(seq![b.last()]));
        } else {
            lemma_open_line(t);
            let w = before.last().push(b.last());
            assert((la + before).last() == before.last());
            assert((la + before).update((la + before).len() - 1, w) =~= la + before.update(before.len() - 1, w));
        }
    }
}

} // verus!
