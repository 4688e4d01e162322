//! The last component of a path, as a directory entry is named in its parent.
//!
//! A path is read as its bytes, separated by `/`. Empty components and `.`
//! components are skipped; the file name is the last component left, unless
//! that is `..` or nothing is left, in which case there is none.

use vstd::prelude::*;
use vstd::utf8::*;

verus! {

broadcast use {encode_utf8_valid_utf8, is_char_boundary_start_end_of_seq,
    is_char_boundary_iff_not_is_continuation_byte};

/// The byte `/`.
pub const SEPARATOR: u8 = 47;

/// The byte `.`.
pub const DOT: u8 = 46;

/// The index of the last `/` in `p`, or -1 when there is none.
pub open spec fn last_separator(p: Seq<u8>) -> int
    decreases p.len(),
{
    if p.len() == 0 {
        -1
    } else if p.last() == SEPARATOR {
        p.len() - 1
    } else {
        last_separator(p.drop_last())
    }
}

/// The file name of the path `p`: its last component that is neither empty nor
/// `.`, unless that component is `..` or there is none.
pub open spec fn file_name_of(p: Seq<u8>) -> Option<Seq<u8>>
    decreases p.len(),
{
    let k = last_separator(p);
    proof {
        lemma_last_separator(p);
    }
    let segment = p.skip(k + 1);
    if segment.len() == 0 || segment == seq![DOT] {
        if k < 0 {
            None
        } else {
            file_name_of(p.take(k))
        }
    } else if segment == seq![DOT, DOT] {
        None
    } else {
        Some(segment)
    }
}

/// The last separator lies before the end of the path.
pub proof fn lemma_last_separator(p: Seq<u8>)
    ensures
        -1 <= last_separator(p) < p.len(),
        last_separator(p) >= 0 ==> p[last_separator(p)] == SEPARATOR,
        forall|j: int| last_separator(p) < j < p.len() ==> p[j] != SEPARATOR,
    decreases p.len(),
{
    if p.len() > 0 && p.last() != SEPARATOR {
        let q = p.drop_last();
        lemma_last_separator(q);
        assert forall|j: int| last_separator(p) < j < p.len() implies p[j] != SEPARATOR by {
            if j < p.len() - 1 {
                assert(q[j] == p[j]);
            }
        }
        if last_separator(p) >= 0 {
            assert(q[last_separator(p)] == p[last_separator(p)]);
        }
    }
}

/// Bytes without a `/` appended to a path leave its last separator where it was.
proof fn lemma_last_separator_append(p: Seq<u8>, n: Seq<u8>)
    requires
        forall|j: int| 0 <= j < n.len() ==> n[j] != SEPARATOR,
    ensures
        last_separator(p + n) == last_separator(p),
    decreases n.len(),
{
    if n.len() == 0 {
        assert(p + n =~= p);
    } else {
        let m = n.drop_last();
        lemma_last_separator_append(p, m);
        assert((p + n).drop_last() =~= p + m);
        assert((p + n).last() == n.last());
    }
}

/// A name as a directory entry can be called: not empty, not `.` or `..`,
/// and without a `/`.
pub open spec fn is_plain_name(name: Seq<u8>) -> bool {
    &&& name.len() > 0
    &&& name != seq![DOT]
    &&& name != seq![DOT, DOT]
    &&& forall|j: int| 0 <= j < name.len() ==> name[j] != SEPARATOR
}

/// Law: a directory's path joined with a plain name by a `/` has that name as
/// its file name, and so has the name alone.
pub proof fn lemma_file_name_of_joined(dir: Seq<u8>, name: Seq<u8>)
    requires
        is_plain_name(name),
    ensures
        file_name_of(dir.push(SEPARATOR) + name) == Some(name),
        file_name_of(name) == Some(name),
{
    let p = dir.push(SEPARATOR) + name;
    lemma_last_separator_append(dir.push(SEPARATOR), name);
    assert(last_separator(dir.push(SEPARATOR)) == dir.len());
    assert(p.skip(dir.len() + 1int) =~= name);
    lemma_last_separator_append(Seq::empty(), name);
    assert(Seq::<u8>::empty() + name =~= name);
    assert(name.skip(0) =~= name);
}

/// Law: a file name is a plain name; a trailing `/` or `/.` does not change the
/// file name of a path, and a trailing `/..` leaves it none.
pub proof fn lemma_file_name_of_shape(p: Seq<u8>)
    ensures
        file_name_of(p) matches Some(n) ==> is_plain_name(n),
        file_name_of(p.push(SEPARATOR)) == file_name_of(p),
        file_name_of(p.push(SEPARATOR).push(DOT)) == file_name_of(p),
        file_name_of(p.push(SEPARATOR).push(DOT).push(DOT)) is None,
    decreases p.len(),
{
    lemma_last_separator(p);
    let k = last_separator(p);
    let segment = p.skip(k + 1);
    if segment.len() == 0 || segment == seq![DOT] {
        if k >= 0 {
            lemma_file_name_of_shape(p.take(k));
        }
    } else if segment != seq![DOT, DOT] {
        assert forall|j: int| 0 <= j < segment.len() implies segment[j] != SEPARATOR by {
            assert(segment[j] == p[k + 1 + j]);
        }
    }
    let q = p.push(SEPARATOR);
    assert(q.take(p.len() as int) =~= p);
    assert(q.skip(p.len() + 1int) =~= Seq::<u8>::empty());
    let q1 = q.push(DOT);
    lemma_last_separator_append(q, seq![DOT]);
    assert(q + seq![DOT] =~= q1);
    assert(q1.skip(p.len() + 1int) =~= seq![DOT]);
    assert(q1.take(p.len() as int) =~= p);
    let q2 = q1.push(DOT);
    lemma_last_separator_append(q, seq![DOT, DOT]);
    assert(q + seq![DOT, DOT] =~= q2);
    assert(q2.skip(p.len() + 1int) =~= seq![DOT, DOT]);
}

/// In valid UTF-8, the byte after an ASCII byte starts a character.
proof fn lemma_boundary_after_ascii(bytes: Seq<u8>, k: int)
    requires
        valid_utf8(bytes),
        0 <= k < bytes.len(),
        bytes[k] < 0x80,
    ensures
        is_char_boundary(bytes, k + 1),
{
    if k + 1 < bytes.len() {
        assert(!is_continuation_byte(bytes[k]));
        assert(is_char_boundary(bytes, k));
        valid_utf8_split(bytes, k);
        let suffix = bytes.subrange(k, bytes.len() as int);
        assert(valid_utf8(suffix));
        assert(suffix[0] == bytes[k]);
        assert(length_of_first_scalar(suffix) == 1);
        let rest = pop_first_scalar(suffix);
        assert(valid_utf8(rest));
        assert(rest =~= bytes.subrange(k + 1, bytes.len() as int));
        assert(rest.len() > 0);
        assert(valid_first_scalar(rest));
        assert(rest[0] == bytes[k + 1]);
        assert(!is_continuation_byte(bytes[k + 1]));
    }
}

/// The position just after the last `/` among the first `end` bytes, or 0 when
/// there is none.
fn segment_start(bytes: &[u8], end: usize) -> (k: usize)
    requires
        end <= bytes@.len(),
    ensures
        k <= end,
        k as int == last_separator(bytes@.take(end as int)) + 1,
{
    let ghost s = bytes@.take(end as int);
    let mut k: usize = end;
    assert(s.take(end as int) =~= s);
    while k > 0 && bytes[k - 1] != SEPARATOR
        invariant
            k <= end <= bytes@.len(),
            s == bytes@.take(end as int),
            last_separator(s) == last_separator(s.take(k as int)),
        decreases k,
    {
        assert(s.take(k as int).drop_last() =~= s.take(k - 1));
        k = k - 1;
    }
    if k > 0 {
        assert(s.take(k as int).last() == bytes@[k - 1]);
    }
    k
}

/// The characters of `p` whose UTF-8 bytes lie between the byte positions `from`
/// and `to`, where `from` is 0 or follows a `/`, and `to` is the end or is a `/`.
fn slice_between_separators(p: &str, from: usize, to: usize) -> (piece: String)
    requires
        from <= to <= encode_utf8(p@).len(),
        from == 0 || encode_utf8(p@)[from - 1] == SEPARATOR,
        to == encode_utf8(p@).len() || encode_utf8(p@)[to as int] == SEPARATOR,
    ensures
        encode_utf8(piece@) == encode_utf8(p@).subrange(from as int, to as int),
{
    let ghost all = encode_utf8(p@);
    proof {
        if from > 0 {
            lemma_boundary_after_ascii(all, from - 1);
        }
    }
    let (_, right) = p.split_at(from);
    proof {
        let rb = encode_utf8(right@);
        assert(rb =~= all.subrange(from as int, all.len() as int));
        if to < all.len() {
            assert(rb[to - from] == SEPARATOR);
            assert(!is_continuation_byte(rb[to - from]));
        }
    }
    let (middle, _) = right.split_at(to - from);
    let piece = middle.to_owned();
    assert(encode_utf8(middle@) =~= all.subrange(from as int, to as int));
    piece
}

/// Where the file name of the path with bytes `p` lies, if it has one: it
/// starts at the beginning or just after a `/`, and ends at the end or at a `/`.
pub fn file_name_range(p: &[u8]) -> (range: Option<(usize, usize)>)
    ensures
        match range {
            None => file_name_of(p@) is None,
            Some((from, to)) => {
                &&& from <= to <= p@.len()
                &&& from == 0 || p@[from - 1] == SEPARATOR
                &&& to == p@.len() || p@[to as int] == SEPARATOR
                &&& file_name_of(p@) == Some(p@.subrange(from as int, to as int))
            },
        },
{
    let ghost all = p@;
    let len = p.len();
    let mut end: usize = len;
    assert(all.take(len as int) =~= all);
    loop
        invariant
            p@ == all,
            len == all.len(),
            end <= len,
            end == len || all[end as int] == SEPARATOR,
            file_name_of(all) == file_name_of(all.take(end as int)),
        decreases end,
    {
        let ghost s = all.take(end as int);
        let k = segment_start(p, end);
        proof {
            lemma_last_separator(s);
            assert(s.skip(k as int) =~= all.subrange(k as int, end as int));
        }
        let seg_len = end - k;
        if seg_len == 0 || (seg_len == 1 && p[k] == DOT) {
            proof {
                if seg_len == 1 {
                    assert(s.skip(k as int) =~= seq![DOT]);
                }
            }
            if k == 0 {
                return None;
            }
            assert(s.take(k - 1) =~= all.take(k - 1));
            end = k - 1;
        } else if seg_len == 2 && p[k] == DOT && p[k + 1] == DOT {
            assert(s.skip(k as int) =~= seq![DOT, DOT]);
            return None;
        } else {
            proof {
                if seg_len == 1 {
                    assert(s.skip(k as int)[0] != DOT);
                    assert(s.skip(k as int) != seq![DOT]);
                }
                if seg_len == 2 {
                    assert(s.skip(k as int)[0] != DOT || s.skip(k as int)[1] != DOT);
                    assert(s.skip(k as int) != seq![DOT, DOT]);
                }
            }
            return Some((k, end));
        }
    }
}

/// The file name of the path `p`, if it has one.
pub fn file_name(p: &str) -> (name: Option<String>)
    ensures
        match name {
            None => file_name_of(encode_utf8(p@)) is None,
            Some(s) => file_name_of(encode_utf8(p@)) == Some(encode_utf8(s@)),
        },
{
    match file_name_range(p.as_bytes()) {
        None => None,
        Some((from, to)) => Some(slice_between_separators(p, from, to)),
    }
}

/// The file name of a path that has one.
pub fn path_filename(p: &str) -> (name: String)
    requires
        file_name_of(encode_utf8(p@)) is Some,
    ensures
        file_name_of(encode_utf8(p@)) == Some(encode_utf8(name@)),
{
    match file_name(p) {
        Some(name) => name,
        None => {
            assert(false);
            String::new()
        },
    }
}

} // verus!
