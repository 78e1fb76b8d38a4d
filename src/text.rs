//! Character-level helpers on strings: splitting, prefixes, lines and numbers.
use vstd::prelude::*;

verus! {

broadcast use vstd::string::group_string_axioms;

/// The pieces of `s` between occurrences of `sep`; a string without `sep`
/// is one piece, and the empty string is one empty piece.
pub open spec fn split_spec(s: Seq<char>, sep: char) -> Seq<Seq<char>>
    decreases s.len(),
{
    if s.len() == 0 {
        seq![Seq::<char>::empty()]
    } else {
        let prev = split_spec(s.drop_last(), sep);
        if s.last() == sep {
            prev.push(Seq::<char>::empty())
        } else {
            prev.update(prev.len() - 1, prev.last().push(s.last()))
        }
    }
}

/// Every split has at least one piece.
pub proof fn lemma_split_nonempty(s: Seq<char>, sep: char)
    ensures
        split_spec(s, sep).len() >= 1,
    decreases s.len(),
{
    if s.len() > 0 {
        lemma_split_nonempty(s.drop_last(), sep);
    }
}

/// The view of a sequence of strings.
pub open spec fn strings_view(v: Seq<String>) -> Seq<Seq<char>> {
    v.map_values(|x: String| x@)
}

/// The characters of `s`, in order.
pub fn chars_of(s: &str) -> (r: Vec<char>)
    ensures
        r@ == s@,
{
    let mut r: Vec<char> = Vec::new();
    for c in it: s.chars()
        invariant
            it.seq() == s@,
            r@ == it.seq().take(it.index() as int),
    {
        r.push(c);
    }
    r
}

/// Relies on `String: FromIterator<char>`: the string holds the characters in order.
#[verifier::external_body]
pub fn string_of(v: &[char]) -> (r: String)
    ensures
        r@ == v@,
{
    v.iter().collect()
}

/// The view of a sequence of character vectors.
pub open spec fn pieces_view(v: Seq<Vec<char>>) -> Seq<Seq<char>> {
    v.map_values(|x: Vec<char>| x@)
}

/// Splits `s` at every occurrence of `sep`.
pub fn split_chars(s: &Vec<char>, sep: char) -> (r: Vec<Vec<char>>)
    ensures
        pieces_view(r@) == split_spec(s@, sep),
{
    let mut pieces: Vec<Vec<char>> = Vec::new();
    let mut cur: Vec<char> = Vec::new();
    let mut i: usize = 0;
    while i < s.len()
        invariant
            i <= s.len(),
            pieces_view(pieces@).push(cur@) == split_spec(s@.take(i as int), sep),
        decreases s.len() - i,
    {
        let c = s[i];
        let ghost pv = pieces_view(pieces@);
        proof {
            assert(s@.take(i as int + 1).drop_last() =~= s@.take(i as int));
        }
        if c == sep {
            let piece = cur.clone();
            pieces.push(piece);
            cur = Vec::new();
            assert(pieces_view(pieces@) =~= pv.push(piece@));
            assert(pieces_view(pieces@).push(cur@) =~= split_spec(s@.take(i as int + 1), sep));
        } else {
            let ghost old_cur = cur@;
            cur.push(c);
            assert(pv.push(cur@) =~= pv.push(old_cur).update(pv.len() as int, old_cur.push(c)));
        }
        i += 1;
    }
    let ghost pv = pieces_view(pieces@);
    let last = cur.clone();
    pieces.push(last);
    assert(pieces_view(pieces@) =~= pv.push(cur@));
    proof {
        assert(s@.take(s.len() as int) == s@);
    }
    pieces
}


/// Whether `p` is a prefix of `s`.
pub fn starts_with(s: &Vec<char>, p: &Vec<char>) -> (r: bool)
    ensures
        r == p@.is_prefix_of(s@),
{
    if p.len() > s.len() {
        return false;
    }
    let mut i: usize = 0;
    while i < p.len()
        invariant
            p.len() <= s.len(),
            i <= p.len(),
            forall|j: int| 0 <= j < i ==> s@[j] == p@[j],
        decreases p.len() - i,
    {
        if s[i] != p[i] {
            return false;
        }
        i += 1;
    }
    assert(p@ =~= s@.subrange(0, p@.len() as int));
    true
}

/// A line without the carriage return that ends it, if any.
pub open spec fn strip_cr(l: Seq<char>) -> Seq<char> {
    if l.len() > 0 && l.last() == '\r' {
        l.drop_last()
    } else {
        l
    }
}

/// The lines of `s` as `str::lines` gives them: split at `\n`, no final
/// empty line after a closing `\n`, and a closing `\r` of each line dropped.
pub open spec fn lines_spec(s: Seq<char>) -> Seq<Seq<char>> {
    let parts = split_spec(s, '\n');
    let kept = if parts.last().len() == 0 {
        parts.drop_last()
    } else {
        parts
    };
    kept.map_values(|l: Seq<char>| strip_cr(l))
}

/// Whether a line is a comment: it starts with `#`.
pub open spec fn is_comment(l: Seq<char>) -> bool {
    l.len() > 0 && l[0] == '#'
}

/// The lines that are not comments, in order.
pub open spec fn uncommented(ls: Seq<Seq<char>>) -> Seq<Seq<char>>
    decreases ls.len(),
{
    if ls.len() == 0 {
        ls
    } else if is_comment(ls.last()) {
        uncommented(ls.drop_last())
    } else {
        uncommented(ls.drop_last()).push(ls.last())
    }
}

/// The lines joined with `\n` between them.
pub open spec fn join_lines(ls: Seq<Seq<char>>) -> Seq<char>
    decreases ls.len(),
{
    if ls.len() == 0 {
        Seq::empty()
    } else if ls.len() == 1 {
        ls[0]
    } else {
        join_lines(ls.drop_last()).push('\n') + ls.last()
    }
}

/// The content without its comment lines: the lines of `content` that do not
/// start with `#`, joined with `\n`.
#[verifier::rlimit(30)]
pub fn skip_comment_lines(content: &str) -> (r: String)
    ensures
        r@ == join_lines(uncommented(lines_spec(content@))),
{
    let cs = chars_of(content);
    let parts = split_chars(&cs, '\n');
    proof {
        lemma_split_nonempty(cs@, '\n');
    }
    let ghost pv = pieces_view(parts@);
    let n: usize = if parts[parts.len() - 1].len() == 0 {
        parts.len() - 1
    } else {
        parts.len()
    };
    let ghost ls = lines_spec(content@);
    assert(ls.len() == n);
    let mut out: Vec<char> = Vec::new();
    let mut count: usize = 0;
    let mut i: usize = 0;
    while i < n
        invariant
            n <= parts.len(),
            i <= n,
            pv == pieces_view(parts@),
            ls.len() == n,
            forall|j: int| 0 <= j < n ==> #[trigger] ls[j] == strip_cr(pv[j]),
            out@ == join_lines(uncommented(ls.take(i as int))),
            count == uncommented(ls.take(i as int)).len(),
            count <= i,
        decreases n - i,
    {
        let part = &parts[i];
        let mut len: usize = part.len();
        if len > 0 && part[len - 1] == '\r' {
            len = len - 1;
        }
        assert(ls.take(i as int + 1).drop_last() =~= ls.take(i as int));
        assert(ls[i as int] == strip_cr(part@));
        if len > 0 && part[0] == '#' {
            assert(is_comment(ls[i as int]));
        } else {
            assert(!is_comment(ls[i as int]));
            let ghost before = out@;
            if count > 0 {
                out.push('\n');
            }
            let mut k: usize = 0;
            while k < len
                invariant
                    k <= len,
                    len <= part.len(),
                    out@ == (if count > 0 { before.push('\n') } else { before }) + part@.take(k as int),
                decreases len - k,
            {
                out.push(part[k]);
                k += 1;
                assert(out@ =~= (if count > 0 { before.push('\n') } else { before }) + part@.take(k as int));
            }
            assert(part@.take(len as int) =~= ls[i as int]);
            let ghost u = uncommented(ls.take(i as int));
            assert(uncommented(ls.take(i as int + 1)) == u.push(ls[i as int]));
            assert(u.push(ls[i as int]).drop_last() =~= u);
            if count == 0 {
                assert(out@ =~= join_lines(u.push(ls[i as int])));
            } else {
                assert(out@ =~= join_lines(u.push(ls[i as int])));
            }
            count += 1;
        }
        i += 1;
    }
    assert(ls.take(n as int) =~= ls);
    string_of(out.as_slice())
}


/// Name for what `str::to_lowercase` returns on a character sequence.
pub uninterp spec fn lower_of(s: Seq<char>) -> Seq<char>;

/// Relies on `str::to_lowercase`: the result depends on the characters alone,
/// and the empty string stays empty.
#[verifier::external_body]
pub fn lowercase(s: &str) -> (r: String)
    ensures
        r@ == lower_of(s@),
        s@.len() == 0 ==> r@.len() == 0,
{
    s.to_lowercase()
}

/// Name for what `str::to_uppercase` returns on a character sequence.
pub uninterp spec fn upper_of(s: Seq<char>) -> Seq<char>;

/// Relies on `str::to_uppercase`: the result depends on the characters alone.
#[verifier::external_body]
pub fn uppercase(s: &str) -> (r: String)
    ensures
        r@ == upper_of(s@),
{
    s.to_uppercase()
}

/// Whether two character vectors are equal.
pub fn same_chars(a: &Vec<char>, b: &Vec<char>) -> (r: bool)
    ensures
        r == (a@ == b@),
{
    if a.len() != b.len() {
        return false;
    }
    let mut i: usize = 0;
    while i < a.len()
        invariant
            a.len() == b.len(),
            i <= a.len(),
            forall|j: int| 0 <= j < i ==> a@[j] == b@[j],
        decreases a.len() - i,
    {
        if a[i] != b[i] {
            return false;
        }
        i += 1;
    }
    assert(a@ =~= b@);
    true
}

/// `a`, then `sep`, then `b`.
pub fn join_with(a: &String, sep: char, b: &String) -> (r: String)
    ensures
        r@ == a@.push(sep) + b@,
{
    let mut v = chars_of(a.as_str());
    v.push(sep);
    let bv = chars_of(b.as_str());
    let mut i: usize = 0;
    let ghost start = v@;
    while i < bv.len()
        invariant
            i <= bv.len(),
            v@ == start + bv@.take(i as int),
        decreases bv.len() - i,
    {
        v.push(bv[i]);
        i += 1;
        assert(v@ =~= start + bv@.take(i as int));
    }
    assert(bv@.take(bv.len() as int) =~= bv@);
    string_of(v.as_slice())
}

} // verus!
