//! The encoding of a stamp as text, and its decoding.
//!
//! The seed is written `{"id":1,"event":0}`. The text of a stamp has no
//! white space, and a text is decoded only if it is the encoding of a stamp,
//! byte for byte. Decoding looks at the shape of the text, not at the form of
//! the trees: a decoded stamp need not be canonical.

use vstd::prelude::*;

use crate::counts::Counts;
use crate::decimal::{
    digits_at, is_digit, lemma_digits_at, lemma_digits_run, lemma_digits_two, lemma_numeral,
    lemma_value_grows, lemma_value_numeral, numeral, push_numeral, value, ZERO,
};
use crate::event_tree::EventTree;
use crate::id_tree::IdTree;
use crate::stamp::Stamp;
use crate::stamp_model::StampModel;

verus! {

/// Why a text is not the encoding of a stamp.
#[derive(Debug, Clone, Copy, PartialEq, Eq, Structural)]
pub enum DecodeError {
    /// The text ends where more has to follow.
    Truncated,
    /// A whole stamp is followed by more text.
    Trailing,
    /// A byte stands where the shape of a stamp has no place for it.
    Malformed,
    /// A leaf of the ownership tree is a number other than 0 and 1.
    InvalidLeaf,
    /// A sequence has too few or too many elements.
    Arity,
    /// An event count has a minus sign.
    NegativeCount,
    /// An event count is greater than a `u32`.
    CountTooLarge,
}

/// The byte `[`, which opens a sequence.
pub const OPEN: u8 = 91;

/// The byte `]`, which closes a sequence.
pub const CLOSE: u8 = 93;

/// The byte `,`, which stands between two elements.
pub const COMMA: u8 = 44;

/// The byte `-`.
pub const MINUS: u8 = 45;

/// The byte `}`, which ends a stamp.
pub const END: u8 = 125;

/// The bytes `{"id":`, with which a stamp begins.
pub open spec fn id_key() -> Seq<u8> {
    seq![123u8, 34u8, 105u8, 100u8, 34u8, 58u8]
}

/// The bytes `,"event":`, which stand between the two trees of a stamp.
pub open spec fn event_key() -> Seq<u8> {
    seq![44u8, 34u8, 101u8, 118u8, 101u8, 110u8, 116u8, 34u8, 58u8]
}

/// The encoding of an ownership tree: `0` or `1` for a leaf, `[left,right]`
/// for a node.
pub open spec fn id_text(i: IdTree) -> Seq<u8>
    decreases i,
{
    match i {
        IdTree::Leaf { i: owned } => seq![if owned { 49u8 } else { ZERO }],
        IdTree::Node { left, right } => seq![OPEN] + id_text(*left) + seq![COMMA] + id_text(
            *right,
        ) + seq![CLOSE],
    }
}

/// The encoding of a history: the numeral of its count for a leaf,
/// `[left,n,right]` for a node with base `n`.
pub open spec fn event_text(e: Counts) -> Seq<u8>
    decreases e,
{
    match e {
        Counts::Leaf { n } => numeral(n),
        Counts::Node { n, left, right } => seq![OPEN] + event_text(*left) + seq![COMMA] + numeral(
            n,
        ) + seq![COMMA] + event_text(*right) + seq![CLOSE],
    }
}

/// The encoding of a stamp: `{"id":` ownership `,"event":` history `}`.
pub open spec fn stamp_text(s: StampModel) -> Seq<u8> {
    id_key() + id_text(s.id) + event_key() + event_text(s.history) + seq![END]
}

/// Whether `t` stands in `b` at position `k`.
pub open spec fn stands_at(b: Seq<u8>, k: int, t: Seq<u8>) -> bool {
    0 <= k && k + t.len() <= b.len() && b.subrange(k, k + t.len()) == t
}

/// Reads the bytes `key` at position `k`, and gives the position after
/// them. A byte that differs is malformed; a text that ends within the key
/// is truncated.
pub open spec fn parse_key(b: Seq<u8>, k: int, key: Seq<u8>) -> Result<int, DecodeError> {
    if stands_at(b, k, key) {
        Ok(k + key.len())
    } else if 0 <= k <= b.len() && b.len() - k < key.len() && b.subrange(k, b.len() as int)
        == key.take(b.len() - k) {
        Err(DecodeError::Truncated)
    } else {
        Err(DecodeError::Malformed)
    }
}

/// Reads an event count at position `k`, and gives it with the position
/// after it. A count is a run of digits that does not start with a zero
/// unless it is the one digit zero, and that stands for a `u32`.
pub open spec fn parse_count(b: Seq<u8>, k: int) -> Result<(nat, int), DecodeError> {
    let n = digits_at(b, k);
    if !(0 <= k < b.len()) {
        Err(DecodeError::Truncated)
    } else if b[k] == MINUS {
        Err(DecodeError::NegativeCount)
    } else if n == 0 {
        Err(DecodeError::Malformed)
    } else if b[k] == ZERO && n > 1 {
        Err(DecodeError::Malformed)
    } else if value(b.subrange(k, k + n)) > u32::MAX {
        Err(DecodeError::CountTooLarge)
    } else {
        Ok((value(b.subrange(k, k + n)), k + n))
    }
}

/// Reads an ownership tree at position `k`, and gives it with the position
/// after it.
///
/// A leaf is the digit 0 or 1 with no digit after it; any other number is an
/// invalid leaf. A node is `[`, a tree, `,`, a tree and `]`; a sequence that
/// closes earlier or goes on with another comma has the wrong arity.
pub open spec fn parse_id(b: Seq<u8>, k: int) -> Result<(IdTree, int), DecodeError>
    decreases b.len() - k,
{
    if !(0 <= k < b.len()) {
        Err(DecodeError::Truncated)
    } else if b[k] == OPEN {
        if k + 1 < b.len() && b[k + 1] == CLOSE {
            Err(DecodeError::Arity)
        } else {
            match parse_id(b, k + 1) {
                Err(e) => Err(e),
                Ok((left, k1)) => {
                    if !(k < k1 < b.len()) {
                        Err(DecodeError::Truncated)
                    } else if b[k1] == CLOSE {
                        Err(DecodeError::Arity)
                    } else if b[k1] != COMMA {
                        Err(DecodeError::Malformed)
                    } else {
                        match parse_id(b, k1 + 1) {
                            Err(e) => Err(e),
                            Ok((right, k2)) => {
                                if !(k1 < k2 < b.len()) {
                                    Err(DecodeError::Truncated)
                                } else if b[k2] == COMMA {
                                    Err(DecodeError::Arity)
                                } else if b[k2] != CLOSE {
                                    Err(DecodeError::Malformed)
                                } else {
                                    Ok((IdTree::branch(left, right), k2 + 1))
                                }
                            },
                        }
                    }
                },
            }
        }
    } else if b[k] == MINUS {
        Err(DecodeError::InvalidLeaf)
    } else if is_digit(b[k]) {
        if b[k] > 49 || digits_at(b, k) > 1 {
            Err(DecodeError::InvalidLeaf)
        } else {
            Ok((IdTree::Leaf { i: b[k] == 49 }, k + 1))
        }
    } else {
        Err(DecodeError::Malformed)
    }
}

/// Reads a history at position `k`, and gives it with the position after
/// it.
///
/// A leaf is a count. A node is `[`, a history, `,`, a count, `,`, a history
/// and `]`; a sequence that closes earlier or goes on with another comma has
/// the wrong arity.
pub open spec fn parse_event(b: Seq<u8>, k: int) -> Result<(Counts, int), DecodeError>
    decreases b.len() - k,
{
    if !(0 <= k < b.len()) {
        Err(DecodeError::Truncated)
    } else if b[k] == OPEN {
        if k + 1 < b.len() && b[k + 1] == CLOSE {
            Err(DecodeError::Arity)
        } else {
            match parse_event(b, k + 1) {
                Err(e) => Err(e),
                Ok((left, k1)) => {
                    if !(k < k1 < b.len()) {
                        Err(DecodeError::Truncated)
                    } else if b[k1] == CLOSE {
                        Err(DecodeError::Arity)
                    } else if b[k1] != COMMA {
                        Err(DecodeError::Malformed)
                    } else {
                        match parse_count(b, k1 + 1) {
                            Err(e) => Err(e),
                            Ok((n, k2)) => {
                                if !(k2 < b.len()) {
                                    Err(DecodeError::Truncated)
                                } else if b[k2] == CLOSE {
                                    Err(DecodeError::Arity)
                                } else if b[k2] != COMMA {
                                    Err(DecodeError::Malformed)
                                } else {
                                    match parse_event(b, k2 + 1) {
                                        Err(e) => Err(e),
                                        Ok((right, k3)) => {
                                            if !(k2 < k3 < b.len()) {
                                                Err(DecodeError::Truncated)
                                            } else if b[k3] == COMMA {
                                                Err(DecodeError::Arity)
                                            } else if b[k3] != CLOSE {
                                                Err(DecodeError::Malformed)
                                            } else {
                                                Ok((Counts::node(n, left, right), k3 + 1))
                                            }
                                        },
                                    }
                                }
                            },
                        }
                    }
                },
            }
        }
    } else {
        match parse_count(b, k) {
            Err(e) => Err(e),
            Ok((n, k1)) => Ok((Counts::leaf(n), k1)),
        }
    }
}

/// Reads a stamp: the whole of `b` has to be its encoding.
pub open spec fn parse_stamp(b: Seq<u8>) -> Result<StampModel, DecodeError> {
    match parse_key(b, 0, id_key()) {
        Err(e) => Err(e),
        Ok(k0) => match parse_id(b, k0) {
            Err(e) => Err(e),
            Ok((id, k1)) => match parse_key(b, k1, event_key()) {
                Err(e) => Err(e),
                Ok(k2) => match parse_event(b, k2) {
                    Err(e) => Err(e),
                    Ok((history, k3)) => {
                        if !(k3 < b.len()) {
                            Err(DecodeError::Truncated)
                        } else if b[k3] != END {
                            Err(DecodeError::Malformed)
                        } else if k3 + 1 != b.len() {
                            Err(DecodeError::Trailing)
                        } else {
                            Ok(StampModel { id, history })
                        }
                    },
                },
            },
        },
    }
}

/// A text of two parts stands where its first part stands and its second
/// part stands right after it.
pub proof fn lemma_stands_both(b: Seq<u8>, k: int, x: Seq<u8>, y: Seq<u8>)
    ensures
        stands_at(b, k, x + y) == (stands_at(b, k, x) && stands_at(b, k + x.len(), y)),
{
    let n = x.len() as int;
    let m = y.len() as int;
    if stands_at(b, k, x + y) {
        let t = b.subrange(k, k + n + m);
        assert(t == x + y);
        assert forall|i: int| 0 <= i < n implies b.subrange(k, k + n)[i] == x[i] by {
            assert(t[i] == (x + y)[i]);
        }
        assert(b.subrange(k, k + n) =~= x);
        assert forall|i: int| 0 <= i < m implies b.subrange(k + n, k + n + m)[i] == y[i] by {
            assert(t[n + i] == (x + y)[n + i]);
        }
        assert(b.subrange(k + n, k + n + m) =~= y);
    }
    if stands_at(b, k, x) && stands_at(b, k + n, y) {
        let t = b.subrange(k, k + n + m);
        assert forall|i: int| 0 <= i < n + m implies t[i] == (x + y)[i] by {
            if i < n {
                assert(b.subrange(k, k + n)[i] == x[i]);
            } else {
                assert(b.subrange(k + n, k + n + m)[i - n] == y[i - n]);
            }
        }
        assert(t =~= x + y);
    }
}

/// One byte stands where it is.
pub proof fn lemma_stands_byte(b: Seq<u8>, k: int, c: u8)
    ensures
        stands_at(b, k, seq![c]) == (0 <= k < b.len() && b[k] == c),
{
    if stands_at(b, k, seq![c]) {
        assert(b.subrange(k, k + 1)[0] == seq![c][0]);
    }
    if 0 <= k < b.len() && b[k] == c {
        assert(b.subrange(k, k + 1) =~= seq![c]);
    }
}

/// The encoding of an ownership tree begins with `0`, `1` or `[`.
pub proof fn lemma_id_text_first(i: IdTree)
    ensures
        id_text(i).len() >= 1,
        id_text(i)[0] == ZERO || id_text(i)[0] == 49 || id_text(i)[0] == OPEN,
{
}

/// The encoding of a history begins with a digit or `[`.
pub proof fn lemma_event_text_first(e: Counts)
    ensures
        event_text(e).len() >= 1,
        is_digit(event_text(e)[0]) || event_text(e)[0] == OPEN,
{
    lemma_numeral(e.base());
}

/// A count that was read is a `u32`, and its numeral is what was read.
pub proof fn lemma_parse_count_exact(b: Seq<u8>, k: int)
    requires
        parse_count(b, k) is Ok,
    ensures
        ({
            let (n, k1) = parse_count(b, k)->Ok_0;
            &&& k < k1 <= b.len()
            &&& n <= u32::MAX
            &&& b.subrange(k, k1) == numeral(n)
        }),
{
    let n = digits_at(b, k) as int;
    lemma_digits_run(b, k);
    let s = b.subrange(k, k + n);
    assert(s[0] == b[k]);
    lemma_value_numeral(s);
}

/// An ownership tree that was read has as its encoding what was read.
pub proof fn lemma_parse_id_exact(b: Seq<u8>, k: int)
    requires
        parse_id(b, k) is Ok,
    ensures
        ({
            let (i, k1) = parse_id(b, k)->Ok_0;
            &&& k < k1 <= b.len()
            &&& b.subrange(k, k1) == id_text(i)
        }),
    decreases b.len() - k,
{
    if b[k] == OPEN {
        let (left, k1) = parse_id(b, k + 1)->Ok_0;
        let (right, k2) = parse_id(b, k1 + 1)->Ok_0;
        lemma_parse_id_exact(b, k + 1);
        lemma_parse_id_exact(b, k1 + 1);
        assert(b.subrange(k, k2 + 1) =~= seq![OPEN] + b.subrange(k + 1, k1) + seq![COMMA]
            + b.subrange(k1 + 1, k2) + seq![CLOSE]);
    } else {
        assert(b.subrange(k, k + 1) =~= seq![b[k]]);
    }
}

/// A history that was read holds `u32`s, and has as its encoding what was
/// read.
pub proof fn lemma_parse_event_exact(b: Seq<u8>, k: int)
    requires
        parse_event(b, k) is Ok,
    ensures
        ({
            let (e, k1) = parse_event(b, k)->Ok_0;
            &&& k < k1 <= b.len()
            &&& e.storable()
            &&& b.subrange(k, k1) == event_text(e)
        }),
    decreases b.len() - k,
{
    if b[k] == OPEN {
        let (left, k1) = parse_event(b, k + 1)->Ok_0;
        let (n, k2) = parse_count(b, k1 + 1)->Ok_0;
        let (right, k3) = parse_event(b, k2 + 1)->Ok_0;
        lemma_parse_event_exact(b, k + 1);
        lemma_parse_count_exact(b, k1 + 1);
        lemma_parse_event_exact(b, k2 + 1);
        assert(b.subrange(k, k3 + 1) =~= seq![OPEN] + b.subrange(k + 1, k1) + seq![COMMA]
            + b.subrange(k1 + 1, k2) + seq![COMMA] + b.subrange(k2 + 1, k3) + seq![CLOSE]);
    } else {
        lemma_parse_count_exact(b, k);
    }
}

/// A text that is read as a stamp is the encoding of that stamp: nothing is
/// missing from it and nothing stands after it.
pub proof fn lemma_parse_stamp_exact(b: Seq<u8>)
    requires
        parse_stamp(b) is Ok,
    ensures
        b == stamp_text(parse_stamp(b)->Ok_0),
        parse_stamp(b)->Ok_0.history.storable(),
{
    let k0 = parse_key(b, 0, id_key())->Ok_0;
    let (id, k1) = parse_id(b, k0)->Ok_0;
    let k2 = parse_key(b, k1, event_key())->Ok_0;
    let (history, k3) = parse_event(b, k2)->Ok_0;
    lemma_parse_id_exact(b, k0);
    lemma_parse_event_exact(b, k2);
    assert(b =~= b.subrange(0, k0) + b.subrange(k0, k1) + b.subrange(k1, k2) + b.subrange(k2, k3)
        + seq![END]);
}

/// The numeral of a `u32` is read as that number, where no digit follows it.
pub proof fn lemma_parse_count_text(b: Seq<u8>, k: int, n: nat)
    requires
        n <= u32::MAX,
        stands_at(b, k, numeral(n)),
        k + numeral(n).len() == b.len() || !is_digit(b[k + numeral(n).len()]),
    ensures
        parse_count(b, k) == Ok::<(nat, int), DecodeError>((n, k + numeral(n).len())),
{
    let t = numeral(n);
    let j = k + t.len();
    lemma_numeral(n);
    assert forall|i: int| k <= i < j implies is_digit(#[trigger] b[i]) by {
        assert(b.subrange(k, j)[i - k] == t[i - k]);
    }
    lemma_digits_at(b, k, j);
    assert(digits_at(b, j) == 0);
    assert(b[k] == t[0]) by {
        assert(b.subrange(k, j)[0] == t[0]);
    }
}

/// The encoding of an ownership tree is read as that tree, where no digit
/// follows it.
pub proof fn lemma_parse_id_text(b: Seq<u8>, k: int, i: IdTree)
    requires
        stands_at(b, k, id_text(i)),
        k + id_text(i).len() == b.len() || !is_digit(b[k + id_text(i).len()]),
    ensures
        parse_id(b, k) == Ok::<(IdTree, int), DecodeError>((i, k + id_text(i).len())),
    decreases i,
{
    match i {
        IdTree::Leaf { i: owned } => {
            lemma_stands_byte(b, k, if owned { 49u8 } else { ZERO });
            assert(digits_at(b, k) == 1 + digits_at(b, k + 1));
            assert(digits_at(b, k + 1) == 0);
        },
        IdTree::Node { left, right } => {
            let l = id_text(*left);
            let r = id_text(*right);
            let k1 = k + 1 + l.len();
            let k2 = k1 + 1 + r.len();
            lemma_stands_both(b, k, seq![OPEN] + l + seq![COMMA] + r, seq![CLOSE]);
            lemma_stands_both(b, k, seq![OPEN] + l + seq![COMMA], r);
            lemma_stands_both(b, k, seq![OPEN] + l, seq![COMMA]);
            lemma_stands_both(b, k, seq![OPEN], l);
            lemma_stands_byte(b, k, OPEN);
            lemma_stands_byte(b, k1, COMMA);
            lemma_stands_byte(b, k2, CLOSE);
            lemma_id_text_first(*left);
            assert(b[k + 1] == l[0]) by {
                assert(b.subrange(k + 1, k1)[0] == l[0]);
            }
            lemma_parse_id_text(b, k + 1, *left);
            lemma_parse_id_text(b, k1 + 1, *right);
        },
    }
}

/// The encoding of a history of `u32`s is read as that history, where no
/// digit follows it.
pub proof fn lemma_parse_event_text(b: Seq<u8>, k: int, e: Counts)
    requires
        e.storable(),
        stands_at(b, k, event_text(e)),
        k + event_text(e).len() == b.len() || !is_digit(b[k + event_text(e).len()]),
    ensures
        parse_event(b, k) == Ok::<(Counts, int), DecodeError>((e, k + event_text(e).len())),
    decreases e,
{
    lemma_event_text_first(e);
    assert(b[k] == event_text(e)[0]) by {
        assert(b.subrange(k, k + event_text(e).len())[0] == event_text(e)[0]);
    }
    match e {
        Counts::Leaf { n } => {
            lemma_numeral(n);
            lemma_parse_count_text(b, k, n);
        },
        Counts::Node { n, left, right } => {
            let l = event_text(*left);
            let m = numeral(n);
            let r = event_text(*right);
            let k1 = k + 1 + l.len();
            let k2 = k1 + 1 + m.len();
            let k3 = k2 + 1 + r.len();
            lemma_stands_both(b, k, seq![OPEN] + l + seq![COMMA] + m + seq![COMMA] + r, seq![CLOSE]);
            lemma_stands_both(b, k, seq![OPEN] + l + seq![COMMA] + m + seq![COMMA], r);
            lemma_stands_both(b, k, seq![OPEN] + l + seq![COMMA] + m, seq![COMMA]);
            lemma_stands_both(b, k, seq![OPEN] + l + seq![COMMA], m);
            lemma_stands_both(b, k, seq![OPEN] + l, seq![COMMA]);
            lemma_stands_both(b, k, seq![OPEN], l);
            lemma_stands_byte(b, k, OPEN);
            lemma_stands_byte(b, k1, COMMA);
            lemma_stands_byte(b, k2, COMMA);
            lemma_stands_byte(b, k3, CLOSE);
            lemma_event_text_first(*left);
            assert(b[k + 1] == l[0]) by {
                assert(b.subrange(k + 1, k1)[0] == l[0]);
            }
            lemma_parse_event_text(b, k + 1, *left);
            lemma_parse_count_text(b, k1 + 1, n);
            lemma_parse_event_text(b, k2 + 1, *right);
        },
    }
}

/// Where the two keys, a tree between them, a history after them and the
/// closing byte stand one after the other and fill the text, the text is read
/// as the stamp of that tree and that history.
proof fn lemma_parse_stamp_parts(b: Seq<u8>, s: StampModel, k0: int, k1: int, k2: int, k3: int)
    requires
        s.history.storable(),
        k0 == id_key().len(),
        k1 == k0 + id_text(s.id).len(),
        k2 == k1 + event_key().len(),
        k3 == k2 + event_text(s.history).len(),
        k3 + 1 == b.len(),
        stands_at(b, 0, id_key()),
        stands_at(b, k0, id_text(s.id)),
        stands_at(b, k1, event_key()),
        stands_at(b, k2, event_text(s.history)),
        b[k1] == COMMA,
        b[k3] == END,
    ensures
        parse_stamp(b) == Ok::<StampModel, DecodeError>(s),
{
    lemma_parse_id_text(b, k0, s.id);
    lemma_parse_event_text(b, k2, s.history);
}

/// Each of five parts stands in the text that they make up, one after the
/// other.
proof fn lemma_stands_five(a: Seq<u8>, i: Seq<u8>, c: Seq<u8>, e: Seq<u8>, z: Seq<u8>)
    ensures
        stands_at(a + i + c + e + z, 0, a),
        stands_at(a + i + c + e + z, a.len() as int, i),
        stands_at(a + i + c + e + z, (a.len() + i.len()) as int, c),
        stands_at(a + i + c + e + z, (a.len() + i.len() + c.len()) as int, e),
        stands_at(a + i + c + e + z, (a.len() + i.len() + c.len() + e.len()) as int, z),
        (a + i + c + e + z).len() == a.len() + i.len() + c.len() + e.len() + z.len(),
{
    let b = a + i + c + e + z;
    assert(stands_at(b, 0, b)) by {
        assert(b.subrange(0, b.len() as int) =~= b);
    }
    lemma_stands_both(b, 0, a + i + c + e, z);
    lemma_stands_both(b, 0, a + i + c, e);
    lemma_stands_both(b, 0, a + i, c);
    lemma_stands_both(b, 0, a, i);
}

/// The encoding of a stamp whose history holds `u32`s is read as that stamp.
pub proof fn lemma_parse_stamp_text(s: StampModel)
    requires
        s.history.storable(),
    ensures
        parse_stamp(stamp_text(s)) == Ok::<StampModel, DecodeError>(s),
{
    let b = stamp_text(s);
    let i = id_text(s.id);
    let e = event_text(s.history);
    let k0 = id_key().len() as int;
    let k1 = k0 + i.len();
    let k2 = k1 + event_key().len();
    let k3 = k2 + e.len();
    lemma_stands_five(id_key(), i, event_key(), e, seq![END]);
    assert(b[k3] == END) by {
        lemma_stands_byte(b, k3, END);
    }
    assert(b[k1] == COMMA) by {
        assert(b.subrange(k1, k2)[0] == event_key()[0]);
    }
    lemma_parse_stamp_parts(b, s, k0, k1, k2, k3);
}

/// A text is read as a stamp if and only if it is the encoding of that stamp
/// and the history of the stamp holds `u32`s.
pub proof fn lemma_parse_stamp_iff(b: Seq<u8>, s: StampModel)
    ensures
        parse_stamp(b) == Ok::<StampModel, DecodeError>(s) <==> s.history.storable() && b
            == stamp_text(s),
{
    if parse_stamp(b) == Ok::<StampModel, DecodeError>(s) {
        lemma_parse_stamp_exact(b);
    }
    if s.history.storable() && b == stamp_text(s) {
        lemma_parse_stamp_text(s);
    }
}

/// The ownership leaf that the marker `marker` stands for: 0 for a leaf that
/// owns nothing, 1 for a leaf that owns everything, and nothing else.
pub fn leaf_of_marker(marker: u8) -> (r: Result<IdTree, DecodeError>)
    ensures
        match r {
            Ok(leaf) => marker <= 1 && leaf == (IdTree::Leaf { i: marker == 1 }),
            Err(e) => marker > 1 && e == DecodeError::InvalidLeaf,
        },
{
    if marker == 0 {
        Ok(IdTree::zero())
    } else if marker == 1 {
        Ok(IdTree::one())
    } else {
        Err(DecodeError::InvalidLeaf)
    }
}

/// Appends the encoding of `i` to `out`.
fn write_id(out: &mut Vec<u8>, i: &IdTree)
    ensures
        final(out)@ == old(out)@ + id_text(*i),
    decreases *i,
{
    match i {
        IdTree::Leaf { i: owned } => {
            out.push(if *owned { 49 } else { ZERO });
        },
        IdTree::Node { left, right } => {
            out.push(OPEN);
            write_id(out, left);
            out.push(COMMA);
            write_id(out, right);
            out.push(CLOSE);
        },
    }
    assert(out@ =~= old(out)@ + id_text(*i));
}

/// Appends the encoding of `e` to `out`.
fn write_event(out: &mut Vec<u8>, e: &EventTree)
    ensures
        final(out)@ == old(out)@ + event_text(e@),
    decreases *e,
{
    match e {
        EventTree::Leaf { n } => {
            push_numeral(out, *n);
        },
        EventTree::Node { n, left, right } => {
            out.push(OPEN);
            write_event(out, left);
            out.push(COMMA);
            push_numeral(out, *n);
            out.push(COMMA);
            write_event(out, right);
            out.push(CLOSE);
        },
    }
    assert(out@ =~= old(out)@ + event_text(e@));
}

/// The encoding of a stamp. Decoding it gives the stamp back.
pub fn encode(stamp: &Stamp) -> (r: Vec<u8>)
    ensures
        r@ == stamp_text(stamp@),
        parse_stamp(r@) == Ok::<StampModel, DecodeError>(stamp@),
{
    let id = stamp.id_tree();
    let history = stamp.event_tree();
    let mut out: Vec<u8> = vec![123u8, 34u8, 105u8, 100u8, 34u8, 58u8];
    assert(out@ =~= id_key());
    write_id(&mut out, &id);
    let ghost with_id = out@;
    let key: Vec<u8> = vec![44u8, 34u8, 101u8, 118u8, 101u8, 110u8, 116u8, 34u8, 58u8];
    assert(key@ =~= event_key());
    let mut j: usize = 0;
    while j < key.len()
        invariant
            j <= key.len(),
            out@ == with_id + key@.take(j as int),
        decreases key.len() - j,
    {
        out.push(key[j]);
        assert(key@.take(j + 1) =~= key@.take(j as int).push(key@[j as int]));
        j = j + 1;
    }
    assert(key@.take(j as int) =~= key@);
    write_event(&mut out, &history);
    out.push(END);
    proof {
        history.lemma_view_storable();
        lemma_parse_stamp_text(stamp@);
    }
    out
}

/// Reads the bytes `key` at position `at`.
fn read_key(bytes: &[u8], at: usize, key: &Vec<u8>) -> (r: Result<usize, DecodeError>)
    requires
        at <= bytes.len(),
    ensures
        match r {
            Ok(next) => parse_key(bytes@, at as int, key@) == Ok::<int, DecodeError>(next as int)
                && next == at + key.len(),
            Err(e) => parse_key(bytes@, at as int, key@) == Err::<int, DecodeError>(e),
        },
{
    let mut j: usize = 0;
    while j < key.len()
        invariant
            at <= bytes.len(),
            j <= key.len(),
            at + j <= bytes.len(),
            forall|i: int| 0 <= i < j ==> bytes@[at + i] == key@[i],
        decreases key.len() - j,
    {
        if at + j >= bytes.len() {
            proof {
                let rest = bytes@.subrange(at as int, bytes@.len() as int);
                assert(rest =~= key@.take(bytes@.len() - at));
            }
            return Err(DecodeError::Truncated);
        }
        if bytes[at + j] != key[j] {
            proof {
                if stands_at(bytes@, at as int, key@) {
                    assert(bytes@.subrange(at as int, at + key@.len())[j as int] == key@[j as int]);
                }
                if bytes@.len() - at < key@.len() {
                    let rest = bytes@.subrange(at as int, bytes@.len() as int);
                    assert(rest[j as int] != key@.take(bytes@.len() - at)[j as int]);
                }
            }
            return Err(DecodeError::Malformed);
        }
        j = j + 1;
    }
    assert(bytes@.subrange(at as int, at + key@.len()) =~= key@);
    Ok(at + j)
}

/// Reads an event count at position `at`.
fn read_count(bytes: &[u8], at: usize) -> (r: Result<(u32, usize), DecodeError>)
    requires
        at <= bytes.len(),
    ensures
        match r {
            Ok((n, next)) => parse_count(bytes@, at as int) == Ok::<(nat, int), DecodeError>(
                (n as nat, next as int),
            ) && at < next <= bytes.len(),
            Err(e) => parse_count(bytes@, at as int) == Err::<(nat, int), DecodeError>(e),
        },
{
    if at >= bytes.len() {
        return Err(DecodeError::Truncated);
    }
    let first = bytes[at];
    if first == MINUS {
        return Err(DecodeError::NegativeCount);
    }
    if !(48 <= first && first <= 57) {
        return Err(DecodeError::Malformed);
    }
    proof {
        lemma_digits_two(bytes@, at as int);
        lemma_digits_run(bytes@, at as int);
    }
    if first == ZERO && at + 1 < bytes.len() && 48 <= bytes[at + 1] && bytes[at + 1] <= 57 {
        return Err(DecodeError::Malformed);
    }
    let ghost run = bytes@.subrange(at as int, at + digits_at(bytes@, at as int));
    let mut acc: u64 = 0;
    let mut j: usize = at;
    assert(bytes@.subrange(at as int, at as int) =~= Seq::<u8>::empty());
    while j < bytes.len() && 48 <= bytes[j] && bytes[j] <= 57
        invariant
            at <= j <= bytes.len(),
            forall|i: int| at <= i < j ==> is_digit(#[trigger] bytes@[i]),
            acc == value(bytes@.subrange(at as int, j as int)),
            acc <= u32::MAX,
            run == bytes@.subrange(at as int, at + digits_at(bytes@, at as int)),
            at + digits_at(bytes@, at as int) <= bytes.len(),
            at < bytes.len(),
            is_digit(bytes@[at as int]),
            !(bytes@[at as int] == ZERO && digits_at(bytes@, at as int) > 1),
        decreases bytes.len() - j,
    {
        let d: u64 = (bytes[j] - 48) as u64;
        proof {
            let longer = bytes@.subrange(at as int, j + 1);
            assert(longer.drop_last() =~= bytes@.subrange(at as int, j as int));
            assert(longer.last() == bytes@[j as int]);
            assert(value(longer) == 10 * acc + d);
        }
        acc = acc * 10 + d;
        j = j + 1;
        if acc > 0xffff_ffff {
            proof {
                lemma_digits_at(bytes@, at as int, j as int);
                lemma_value_grows(run, j - at);
                assert(run.take(j - at) =~= bytes@.subrange(at as int, j as int));
            }
            return Err(DecodeError::CountTooLarge);
        }
    }
    proof {
        lemma_digits_at(bytes@, at as int, j as int);
        assert(digits_at(bytes@, j as int) == 0);
    }
    Ok((acc as u32, j))
}

/// Reads an ownership tree at position `at`.
fn read_id(bytes: &[u8], at: usize) -> (r: Result<(IdTree, usize), DecodeError>)
    requires
        at <= bytes.len(),
    ensures
        match r {
            Ok((i, next)) => parse_id(bytes@, at as int) == Ok::<(IdTree, int), DecodeError>(
                (i, next as int),
            ) && at < next <= bytes.len(),
            Err(e) => parse_id(bytes@, at as int) == Err::<(IdTree, int), DecodeError>(e),
        },
    decreases bytes.len() - at,
{
    if at >= bytes.len() {
        return Err(DecodeError::Truncated);
    }
    let first = bytes[at];
    if first == OPEN {
        if at + 1 < bytes.len() && bytes[at + 1] == CLOSE {
            return Err(DecodeError::Arity);
        }
        let (left, k1) = match read_id(bytes, at + 1) {
            Err(e) => {
                return Err(e);
            },
            Ok(found) => found,
        };
        if k1 >= bytes.len() {
            return Err(DecodeError::Truncated);
        }
        if bytes[k1] == CLOSE {
            return Err(DecodeError::Arity);
        }
        if bytes[k1] != COMMA {
            return Err(DecodeError::Malformed);
        }
        let (right, k2) = match read_id(bytes, k1 + 1) {
            Err(e) => {
                return Err(e);
            },
            Ok(found) => found,
        };
        if k2 >= bytes.len() {
            return Err(DecodeError::Truncated);
        }
        if bytes[k2] == COMMA {
            return Err(DecodeError::Arity);
        }
        if bytes[k2] != CLOSE {
            return Err(DecodeError::Malformed);
        }
        Ok((IdTree::node(Box::new(left), Box::new(right)), k2 + 1))
    } else if first == MINUS {
        Err(DecodeError::InvalidLeaf)
    } else if 48 <= first && first <= 57 {
        proof {
            lemma_digits_two(bytes@, at as int);
        }
        if first > 49 {
            return Err(DecodeError::InvalidLeaf);
        }
        if at + 1 < bytes.len() && 48 <= bytes[at + 1] && bytes[at + 1] <= 57 {
            return Err(DecodeError::InvalidLeaf);
        }
        Ok((IdTree::leaf(first == 49), at + 1))
    } else {
        Err(DecodeError::Malformed)
    }
}

/// Reads a history at position `at`.
fn read_event(bytes: &[u8], at: usize) -> (r: Result<(EventTree, usize), DecodeError>)
    requires
        at <= bytes.len(),
    ensures
        match r {
            Ok((e, next)) => parse_event(bytes@, at as int) == Ok::<(Counts, int), DecodeError>(
                (e@, next as int),
            ) && at < next <= bytes.len(),
            Err(e) => parse_event(bytes@, at as int) == Err::<(Counts, int), DecodeError>(e),
        },
    decreases bytes.len() - at,
{
    if at >= bytes.len() {
        return Err(DecodeError::Truncated);
    }
    if bytes[at] == OPEN {
        if at + 1 < bytes.len() && bytes[at + 1] == CLOSE {
            return Err(DecodeError::Arity);
        }
        let (left, k1) = match read_event(bytes, at + 1) {
            Err(e) => {
                return Err(e);
            },
            Ok(found) => found,
        };
        if k1 >= bytes.len() {
            return Err(DecodeError::Truncated);
        }
        if bytes[k1] == CLOSE {
            return Err(DecodeError::Arity);
        }
        if bytes[k1] != COMMA {
            return Err(DecodeError::Malformed);
        }
        let (n, k2) = match read_count(bytes, k1 + 1) {
            Err(e) => {
                return Err(e);
            },
            Ok(found) => found,
        };
        if k2 >= bytes.len() {
            return Err(DecodeError::Truncated);
        }
        if bytes[k2] == CLOSE {
            return Err(DecodeError::Arity);
        }
        if bytes[k2] != COMMA {
            return Err(DecodeError::Malformed);
        }
        let (right, k3) = match read_event(bytes, k2 + 1) {
            Err(e) => {
                return Err(e);
            },
            Ok(found) => found,
        };
        if k3 >= bytes.len() {
            return Err(DecodeError::Truncated);
        }
        if bytes[k3] == COMMA {
            return Err(DecodeError::Arity);
        }
        if bytes[k3] != CLOSE {
            return Err(DecodeError::Malformed);
        }
        Ok((EventTree::node(n, Box::new(left), Box::new(right)), k3 + 1))
    } else {
        match read_count(bytes, at) {
            Err(e) => Err(e),
            Ok((n, next)) => Ok((EventTree::leaf(n), next)),
        }
    }
}

/// Decodes a stamp. The text has to be the encoding of a stamp, byte for
/// byte: nothing may be missing from it and nothing may stand after it.
pub fn decode(bytes: &[u8]) -> (r: Result<Stamp, DecodeError>)
    ensures
        match r {
            Ok(stamp) => parse_stamp(bytes@) == Ok::<StampModel, DecodeError>(stamp@)
                && bytes@ == stamp_text(stamp@),
            Err(e) => parse_stamp(bytes@) == Err::<StampModel, DecodeError>(e),
        },
{
    proof {
        if parse_stamp(bytes@) is Ok {
            lemma_parse_stamp_exact(bytes@);
        }
    }
    let id_key_bytes: Vec<u8> = vec![123u8, 34u8, 105u8, 100u8, 34u8, 58u8];
    assert(id_key_bytes@ =~= id_key());
    let event_key_bytes: Vec<u8> = vec![44u8, 34u8, 101u8, 118u8, 101u8, 110u8, 116u8, 34u8, 58u8];
    assert(event_key_bytes@ =~= event_key());
    let k0 = match read_key(bytes, 0, &id_key_bytes) {
        Err(e) => {
            return Err(e);
        },
        Ok(next) => next,
    };
    let (id, k1) = match read_id(bytes, k0) {
        Err(e) => {
            return Err(e);
        },
        Ok(found) => found,
    };
    let k2 = match read_key(bytes, k1, &event_key_bytes) {
        Err(e) => {
            return Err(e);
        },
        Ok(next) => next,
    };
    let (history, k3) = match read_event(bytes, k2) {
        Err(e) => {
            return Err(e);
        },
        Ok(found) => found,
    };
    if k3 >= bytes.len() {
        return Err(DecodeError::Truncated);
    }
    if bytes[k3] != END {
        return Err(DecodeError::Malformed);
    }
    if k3 + 1 != bytes.len() {
        return Err(DecodeError::Trailing);
    }
    Ok(Stamp::new(id, history))
}

} // verus!
