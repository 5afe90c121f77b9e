//! Text: characters, lines and white space.
use vstd::prelude::*;

verus! {

/// `String::push` appends a character.
pub assume_specification[ String::push ](s: &mut String, c: char)
    ensures
        final(s)@ == old(s)@.push(c),
;

/// The characters of each string.
pub open spec fn texts(docs: Seq<String>) -> Seq<Seq<char>> {
    Seq::new(docs.len(), |i: int| docs[i]@)
}

/// The character is white space, by the Unicode property of that name.
pub open spec fn is_white_space(c: char) -> bool {
    let x = c as u32;
    ||| 0x09 <= x <= 0x0D
    ||| x == 0x20
    ||| x == 0x85
    ||| x == 0xA0
    ||| x == 0x1680
    ||| 0x2000 <= x <= 0x200A
    ||| x == 0x2028
    ||| x == 0x2029
    ||| x == 0x202F
    ||| x == 0x205F
    ||| x == 0x3000
}

/// The text without its leading white space.
pub open spec fn trim_start(s: Seq<char>) -> Seq<char>
    decreases s.len(),
{
    if s.len() > 0 && is_white_space(s.first()) {
        trim_start(s.drop_first())
    } else {
        s
    }
}

/// The text without its trailing white space.
pub open spec fn trim_end(s: Seq<char>) -> Seq<char>
    decreases s.len(),
{
    if s.len() > 0 && is_white_space(s.last()) {
        trim_end(s.drop_last())
    } else {
        s
    }
}

/// The text without the white space around it.
pub open spec fn trimmed(s: Seq<char>) -> Seq<char> {
    trim_end(trim_start(s))
}

/// The text split at its line feeds.
pub open spec fn split_lines(s: Seq<char>) -> Seq<Seq<char>>
    decreases s.len(),
{
    if s.len() == 0 {
        seq![Seq::empty()]
    } else {
        let before = split_lines(s.drop_last());
        if s.last() == '\n' {
            before.push(Seq::empty())
        } else {
            before.drop_last().push(before.last().push(s.last()))
        }
    }
}

/// `docs` with a trimmed line behind it, unless nothing is left of the line.
pub open spec fn with_line(docs: Seq<Seq<char>>, line: Seq<char>) -> Seq<Seq<char>> {
    if trimmed(line).len() == 0 {
        docs
    } else {
        docs.push(trimmed(line))
    }
}

/// The lines that have something on them, each without the white space around it.
pub open spec fn nonempty_lines(lines: Seq<Seq<char>>) -> Seq<Seq<char>>
    decreases lines.len(),
{
    if lines.len() == 0 {
        Seq::empty()
    } else {
        with_line(nonempty_lines(lines.drop_last()), lines.last())
    }
}

/// The documents in a text: one per line that has something on it.
pub open spec fn docs_of(text: Seq<char>) -> Seq<Seq<char>> {
    nonempty_lines(split_lines(text))
}

/// The characters of a string.
pub fn chars_of(s: &str) -> (v: Vec<char>)
    ensures
        v@ == s@,
{
    let mut v: Vec<char> = Vec::new();
    for c in it: s.chars()
        invariant
            it.seq() == s@,
            v@ == s@.take(it.index()),
    {
        v.push(c);
    }
    v
}

/// Whether a character is white space.
pub fn white_space(c: char) -> (r: bool)
    ensures
        r == is_white_space(c),
{
    let x: u32 = c as u32;
    (0x09 <= x && x <= 0x0D) || x == 0x20 || x == 0x85 || x == 0xA0 || x == 0x1680 || (0x2000 <= x
        && x <= 0x200A) || x == 0x2028 || x == 0x2029 || x == 0x202F || x == 0x205F || x == 0x3000
}

/// The string of some characters without the white space around them.
pub fn trim(line: &[char]) -> (r: String)
    ensures
        r@ == trimmed(line@),
{
    let n: usize = line.len();
    let mut a: usize = 0;
    assert(line@.skip(0) =~= line@);
    while a < n && white_space(line[a])
        invariant
            a <= n,
            n == line.len(),
            trim_start(line@.skip(a as int)) == trim_start(line@),
        ensures
            a <= n,
            a < n ==> !is_white_space(line@[a as int]),
            trim_start(line@.skip(a as int)) == trim_start(line@),
        decreases n - a,
    {
        assert(line@.skip(a as int).drop_first() =~= line@.skip(a + 1));
        a = a + 1;
    }
    let ghost started = line@.skip(a as int);
    assert(trim_start(line@) == started);
    let mut b: usize = n;
    assert(line@.subrange(a as int, b as int) =~= started);
    while b > a && white_space(line[b - 1])
        invariant
            a <= b <= n,
            n == line.len(),
            trim_end(line@.subrange(a as int, b as int)) == trim_end(started),
        ensures
            a <= b <= n,
            a < b ==> !is_white_space(line@[b - 1]),
            trim_end(line@.subrange(a as int, b as int)) == trim_end(started),
        decreases b,
    {
        assert(line@.subrange(a as int, b as int).drop_last() =~= line@.subrange(
            a as int,
            b - 1,
        ));
        b = b - 1;
    }
    let mut r = String::new();
    let mut i: usize = a;
    while i < b
        invariant
            a <= i <= b,
            b <= n,
            n == line.len(),
            r@ == line@.subrange(a as int, i as int),
        decreases b - i,
    {
        r.push(line[i]);
        assert(line@.subrange(a as int, i as int).push(line@[i as int]) =~= line@.subrange(
            a as int,
            i + 1,
        ));
        i = i + 1;
    }
    r
}

/// A split text has at least one line.
proof fn lemma_split_lines_len(s: Seq<char>)
    ensures
        split_lines(s).len() >= 1,
    decreases s.len(),
{
    if s.len() > 0 {
        lemma_split_lines_len(s.drop_last());
    }
}

/// The documents in a text: one per line that has something on it, without the white space
/// around it.
pub fn parse_docs(text: &str) -> (docs: Vec<String>)
    ensures
        texts(docs@) == docs_of(text@),
{
    let chars = chars_of(text);
    let mut docs: Vec<String> = Vec::new();
    let mut line: Vec<char> = Vec::new();
    let n: usize = chars.len();
    let mut i: usize = 0;
    proof {
        assert(chars@.take(0) =~= Seq::empty());
        assert(split_lines(Seq::empty()).drop_last() =~= Seq::empty());
        assert(texts(docs@) =~= Seq::empty());
    }
    while i < n
        invariant
            i <= n,
            n == chars@.len(),
            split_lines(chars@.take(i as int)).last() == line@,
            texts(docs@) == nonempty_lines(split_lines(chars@.take(i as int)).drop_last()),
        decreases n - i,
    {
        let ghost lines = split_lines(chars@.take(i as int));
        proof {
            assert(chars@.take(i + 1).drop_last() =~= chars@.take(i as int));
            lemma_split_lines_len(chars@.take(i as int));
        }
        let c = chars[i];
        if c == '\n' {
            let ghost before = docs@;
            let doc = trim(line.as_slice());
            if !doc.as_str().is_empty() {
                docs.push(doc);
            }
            line.clear();
            proof {
                let now = split_lines(chars@.take(i + 1));
                assert(now.drop_last() =~= lines);
                assert(texts(docs@) =~= with_line(texts(before), lines.last()));
            }
        } else {
            line.push(c);
            proof {
                let now = split_lines(chars@.take(i + 1));
                assert(now.drop_last() =~= lines.drop_last());
            }
        }
        i = i + 1;
    }
    let ghost before = docs@;
    let doc = trim(line.as_slice());
    if !doc.as_str().is_empty() {
        docs.push(doc);
    }
    proof {
        assert(chars@.take(n as int) =~= text@);
        lemma_split_lines_len(text@);
        assert(texts(docs@) =~= with_line(texts(before), split_lines(text@).last()));
    }
    docs
}

/// Trimming takes the white space off both ends and nothing else: what is left is a stretch of the
/// text with white space only around it, and it neither begins nor ends with white space.
pub proof fn law_trimming_takes_the_ends(s: Seq<char>) -> (cut: (int, int))
    ensures
        0 <= cut.0 <= cut.1 <= s.len(),
        trimmed(s) == s.subrange(cut.0, cut.1),
        forall|k: int| 0 <= k < cut.0 ==> is_white_space(#[trigger] s[k]),
        forall|k: int| cut.1 <= k < s.len() ==> is_white_space(#[trigger] s[k]),
        cut.0 < cut.1 ==> !is_white_space(s[cut.0]) && !is_white_space(s[cut.1 - 1]),
{
    let a = lemma_trim_start(s);
    let t = s.skip(a);
    let b = lemma_trim_end(t);
    assert(t.take(b) =~= s.subrange(a, a + b));
    assert forall|k: int| a + b <= k < s.len() implies is_white_space(#[trigger] s[k]) by {
        assert(is_white_space(t[k - a]));
    }
    (a, a + b)
}

/// How many characters the start loses.
proof fn lemma_trim_start(s: Seq<char>) -> (a: int)
    ensures
        0 <= a <= s.len(),
        trim_start(s) == s.skip(a),
        forall|k: int| 0 <= k < a ==> is_white_space(#[trigger] s[k]),
        a < s.len() ==> !is_white_space(s[a]),
    decreases s.len(),
{
    if s.len() > 0 && is_white_space(s.first()) {
        let rest = s.drop_first();
        let a = lemma_trim_start(rest);
        assert(rest.skip(a) =~= s.skip(a + 1));
        assert forall|k: int| 0 <= k < a + 1 implies is_white_space(#[trigger] s[k]) by {
            if k > 0 {
                assert(is_white_space(rest[k - 1]));
            }
        }
        a + 1
    } else {
        assert(s.skip(0) =~= s);
        0
    }
}

/// How many characters the end leaves.
proof fn lemma_trim_end(s: Seq<char>) -> (b: int)
    ensures
        0 <= b <= s.len(),
        trim_end(s) == s.take(b),
        forall|k: int| b <= k < s.len() ==> is_white_space(#[trigger] s[k]),
        0 < b ==> !is_white_space(s[b - 1]),
    decreases s.len(),
{
    if s.len() > 0 && is_white_space(s.last()) {
        let rest = s.drop_last();
        let b = lemma_trim_end(rest);
        assert(rest.take(b) =~= s.take(b));
        assert forall|k: int| b <= k < s.len() implies is_white_space(#[trigger] s[k]) by {
            if k < s.len() - 1 {
                assert(is_white_space(rest[k]));
            }
        }
        b
    } else {
        assert(s.take(s.len() as int) =~= s);
        s.len() as int
    }
}

/// A line feed separates documents and nothing else does: the documents of two texts with a line
/// feed between them are the documents of the one and then those of the other, and a text without
/// a line feed is one document, or none where it is all white space.
pub proof fn law_documents_are_lines(a: Seq<char>, b: Seq<char>)
    ensures
        docs_of(a.push('\n') + b) == docs_of(a) + docs_of(b),
        !a.contains('\n') ==> docs_of(a) == (if trimmed(a).len() == 0 {
            Seq::<Seq<char>>::empty()
        } else {
            seq![trimmed(a)]
        }),
{
    lemma_split_at_line_feed(a, b);
    lemma_documents_of_both(split_lines(a), split_lines(b));
    if !a.contains('\n') {
        lemma_one_line(a);
        let lines = seq![a];
        assert(lines.drop_last() =~= Seq::<Seq<char>>::empty());
        assert(nonempty_lines(lines.drop_last()) =~= Seq::<Seq<char>>::empty());
        assert(nonempty_lines(lines) == with_line(Seq::<Seq<char>>::empty(), a));
        assert(Seq::<Seq<char>>::empty().push(trimmed(a)) =~= seq![trimmed(a)]);
    }
}

/// The lines of two texts with a line feed between them.
proof fn lemma_split_at_line_feed(a: Seq<char>, b: Seq<char>)
    ensures
        split_lines(a.push('\n') + b) == split_lines(a) + split_lines(b),
    decreases b.len(),
{
    let s = a.push('\n') + b;
    if b.len() == 0 {
        assert(s =~= a.push('\n'));
        assert(s.drop_last() =~= a);
        assert(split_lines(b) == seq![Seq::<char>::empty()]);
        assert(split_lines(s) =~= split_lines(a) + split_lines(b));
    } else {
        lemma_split_at_line_feed(a, b.drop_last());
        assert(s.drop_last() =~= a.push('\n') + b.drop_last());
        lemma_split_lines_len(b.drop_last());
        let (x, y) = (split_lines(a), split_lines(b.drop_last()));
        assert(s.last() == b.last());
        assert((x + y).last() == y.last());
        assert((x + y).drop_last() =~= x + y.drop_last());
        assert(split_lines(s) =~= x + split_lines(b));
    }
}

/// A text without a line feed is one line.
proof fn lemma_one_line(a: Seq<char>)
    requires
        !a.contains('\n'),
    ensures
        split_lines(a) == seq![a],
    decreases a.len(),
{
    if a.len() == 0 {
        assert(a =~= Seq::<char>::empty());
    } else {
        let rest = a.drop_last();
        assert(!rest.contains('\n')) by {
            if rest.contains('\n') {
                let k = choose|k: int| 0 <= k < rest.len() && rest[k] == '\n';
                assert(a[k] == '\n');
            }
        }
        assert(a.last() != '\n') by {
            if a.last() == '\n' {
                assert(a[a.len() - 1] == '\n');
            }
        }
        lemma_one_line(rest);
        assert(rest.push(a.last()) =~= a);
        assert(split_lines(a) =~= seq![a]);
    }
}

/// The documents of some lines and then of others.
proof fn lemma_documents_of_both(x: Seq<Seq<char>>, y: Seq<Seq<char>>)
    ensures
        nonempty_lines(x + y) == nonempty_lines(x) + nonempty_lines(y),
    decreases y.len(),
{
    if y.len() == 0 {
        assert(x + y =~= x);
        assert(nonempty_lines(x) + nonempty_lines(y) =~= nonempty_lines(x));
    } else {
        lemma_documents_of_both(x, y.drop_last());
        assert((x + y).drop_last() =~= x + y.drop_last());
        assert((x + y).last() == y.last());
        assert(nonempty_lines(x + y) =~= nonempty_lines(x) + nonempty_lines(y));
    }
}

} // verus!
