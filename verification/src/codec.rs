//! The migration definition format.
//!
//! A definition is a small line-based text, one per migration:
//!
//! ```text
//! <version>
//! <name>
//! <number of forward operations>
//! ...one line per forward operation...
//! <number of reverse operations>
//! ...one line per reverse operation...
//! ```
//!
//! Numbers are canonical decimals; names are non-empty labels over ASCII
//! letters, digits, `_`, `-` and `.`; lines end with a single line feed. An
//! operation line is a numeric kind tag and its arguments, space-separated:
//! `1 <collection>` creates a collection, `2 <collection>` drops one,
//! `3 <collection>` and `4 <collection>` do the same for edge collections,
//! and `5 <collection> <index kind> <field>...` and
//! `6 <collection> <index kind> <field>...` create and drop an index, where
//! the index kind is `1` hash, `2` persistent, `3` skiplist, `4` ttl,
//! `5` geo, `6` fulltext.
//!
//! [`render`] writes this form; [`parse`] is proved sound against it: any
//! accepted input is exactly the rendering of the returned migration.

use vstd::prelude::*;
use crate::error::ParseError;
use crate::migration::{Migration, MigrationModel};
use crate::operation::{names_view, IndexId, IndexKind, IndexModel, OpModel, Operation};

verus! {

/// A byte a name may hold: an ASCII letter, a digit, `_`, `-` or `.`.
pub open spec fn is_label_byte(b: u8) -> bool {
    (48 <= b <= 57) || (65 <= b <= 90) || (97 <= b <= 122) || b == 95 || b == 45 || b == 46
}

/// A usable name: non-empty, labels only.
pub open spec fn is_label(s: Seq<u8>) -> bool {
    s.len() > 0 && forall|i: int| 0 <= i < s.len() ==> is_label_byte(#[trigger] s[i])
}

/// The canonical decimal digits of a number, most significant first.
pub open spec fn dec_digits(n: nat) -> Seq<u8>
    decreases n,
{
    if n < 10 {
        seq![(48 + n) as u8]
    } else {
        dec_digits(n / 10) + seq![(48 + n % 10) as u8]
    }
}

/// The numeric tag of an index kind.
pub open spec fn kind_tag(k: IndexKind) -> nat {
    match k {
        IndexKind::Hash => 1,
        IndexKind::Persistent => 2,
        IndexKind::Skiplist => 3,
        IndexKind::Ttl => 4,
        IndexKind::Geo => 5,
        IndexKind::Fulltext => 6,
    }
}

/// Fields of an index line, each preceded by one space.
pub open spec fn render_fields(fields: Seq<Seq<u8>>) -> Seq<u8>
    decreases fields.len(),
{
    if fields.len() == 0 {
        Seq::empty()
    } else {
        render_fields(fields.drop_last()) + seq![32u8] + fields.last()
    }
}

/// The numeric tag of an operation kind.
pub open spec fn op_tag(op: OpModel) -> nat {
    match op {
        OpModel::CreateCollection { name } => 1,
        OpModel::DropCollection { name } => 2,
        OpModel::CreateEdgeCollection { name } => 3,
        OpModel::DropEdgeCollection { name } => 4,
        OpModel::CreateIndex { collection, index } => 5,
        OpModel::DropIndex { collection, index } => 6,
    }
}

/// The name argument of an operation: the collection it touches.
pub open spec fn op_name_of(op: OpModel) -> Seq<u8> {
    match op {
        OpModel::CreateCollection { name } => name,
        OpModel::DropCollection { name } => name,
        OpModel::CreateEdgeCollection { name } => name,
        OpModel::DropEdgeCollection { name } => name,
        OpModel::CreateIndex { collection, index } => collection,
        OpModel::DropIndex { collection, index } => collection,
    }
}

/// Whether the operation is an index operation, with further arguments.
pub open spec fn is_index_op(op: OpModel) -> bool {
    op is CreateIndex || op is DropIndex
}

/// The index an index operation names.
pub open spec fn op_index_of(op: OpModel) -> IndexModel {
    match op {
        OpModel::CreateIndex { collection, index } => index,
        OpModel::DropIndex { collection, index } => index,
        _ => IndexModel { fields: Seq::empty(), kind: IndexKind::Hash },
    }
}

/// The arguments of an operation line after its tag.
pub open spec fn op_rest(op: OpModel) -> Seq<u8> {
    if is_index_op(op) {
        op_name_of(op) + seq![32u8] + dec_digits(kind_tag(op_index_of(op).kind)) + render_fields(
            op_index_of(op).fields,
        )
    } else {
        op_name_of(op)
    }
}

/// One operation line, without its line feed.
pub open spec fn render_op(op: OpModel) -> Seq<u8> {
    dec_digits(op_tag(op)) + seq![32u8] + op_rest(op)
}

/// Operation lines, each closed by a line feed.
pub open spec fn render_ops(ops: Seq<OpModel>) -> Seq<u8>
    decreases ops.len(),
{
    if ops.len() == 0 {
        Seq::empty()
    } else {
        render_ops(ops.drop_last()) + render_op(ops.last()) + seq![10u8]
    }
}

/// The whole definition text of a migration.
pub open spec fn spec_render(m: MigrationModel) -> Seq<u8> {
    dec_digits(m.version as nat) + seq![10u8] + m.name + seq![10u8] + dec_digits(m.up.len())
        + seq![10u8] + render_ops(m.up) + dec_digits(m.down.len()) + seq![10u8] + render_ops(
        m.down,
    )
}

/// Whether an operation's names can appear in a definition text.
pub open spec fn op_wf_source(op: OpModel) -> bool {
    match op {
        OpModel::CreateCollection { name } => is_label(name),
        OpModel::DropCollection { name } => is_label(name),
        OpModel::CreateEdgeCollection { name } => is_label(name),
        OpModel::DropEdgeCollection { name } => is_label(name),
        OpModel::CreateIndex { collection, index } => is_label(collection) && forall|i: int|
            0 <= i < index.fields.len() ==> is_label(#[trigger] index.fields[i]),
        OpModel::DropIndex { collection, index } => is_label(collection) && forall|i: int|
            0 <= i < index.fields.len() ==> is_label(#[trigger] index.fields[i]),
    }
}

/// Whether a migration can appear as a definition text: its names are
/// usable labels and its operation counts are writable numbers.
pub open spec fn wf_source(m: MigrationModel) -> bool {
    &&& is_label(m.name)
    &&& m.up.len() <= u64::MAX
    &&& m.down.len() <= u64::MAX
    &&& forall|i: int| 0 <= i < m.up.len() ==> op_wf_source(#[trigger] m.up[i])
    &&& forall|i: int| 0 <= i < m.down.len() ==> op_wf_source(#[trigger] m.down[i])
}

/// Whether a byte string is the definition text of some migration.
pub open spec fn is_definition(b: Seq<u8>) -> bool {
    exists|m: MigrationModel| wf_source(m) && b == #[trigger] spec_render(m)
}

/// The numeric value a digit string stands for.
pub open spec fn dec_value(s: Seq<u8>) -> int
    decreases s.len(),
{
    if s.len() == 0 {
        0
    } else {
        dec_value(s.drop_last()) * 10 + (s.last() - 48)
    }
}

/// Canonical digits are non-empty decimal digits without a leading zero,
/// and stand for the number they were written from.
pub proof fn lemma_dec_digits_shape(n: nat)
    ensures
        dec_digits(n).len() >= 1,
        forall|i: int| 0 <= i < dec_digits(n).len() ==> 48 <= #[trigger] dec_digits(n)[i] <= 57,
        n > 0 ==> dec_digits(n)[0] != 48,
        dec_value(dec_digits(n)) == n,
    decreases n,
{
    if n < 10 {
        assert((48 + n) as u8 == 48 + n);
        assert(dec_digits(n) =~= seq![(48 + n) as u8]);
        assert(dec_digits(n).drop_last() =~= Seq::<u8>::empty());
        assert(dec_value(Seq::<u8>::empty()) == 0);
        assert(dec_value(dec_digits(n)) == dec_digits(n).last() - 48);
    } else {
        lemma_dec_digits_shape(n / 10);
        let front = dec_digits(n / 10);
        assert(dec_digits(n) == front + seq![(48 + n % 10) as u8]);
        assert(dec_digits(n).drop_last() =~= front);
        assert(dec_digits(n).last() == (48 + n % 10) as u8);
        assert((48 + n % 10) as u8 == 48 + n % 10);
        assert(dec_value(dec_digits(n)) == (n / 10) * 10 + n % 10);
        assert(dec_digits(n)[0] == front[0]);
        assert forall|i: int| 0 <= i < dec_digits(n).len() implies 48 <= #[trigger] dec_digits(
            n,
        )[i] <= 57 by {
            if i < front.len() {
                assert(dec_digits(n)[i] == front[i]);
            }
        }
    }
}

/// A digit string's value is non-negative, and no prefix exceeds the whole.
pub proof fn lemma_dec_value_prefix(s: Seq<u8>, k: int)
    requires
        0 <= k <= s.len(),
        forall|i: int| 0 <= i < s.len() ==> 48 <= #[trigger] s[i] <= 57,
    ensures
        0 <= dec_value(s.take(k)),
        dec_value(s.take(k)) <= dec_value(s),
    decreases s.len(), s.len() - k,
{
    if k == s.len() {
        assert(s.take(k) =~= s);
        if s.len() > 0 {
            assert(s.drop_last() =~= s.take(s.len() - 1));
            lemma_dec_value_prefix(s.take(s.len() - 1), s.len() - 1);
            assert(s.take(s.len() - 1).take(s.len() - 1) =~= s.take(s.len() - 1));
        }
    } else {
        lemma_dec_value_prefix(s, k + 1);
        assert(s.take(k + 1).drop_last() =~= s.take(k));
        assert(s.take(k + 1).last() == s[k]);
        assert(dec_value(s.take(k + 1)) == dec_value(s.take(k)) * 10 + (s[k] - 48));
    }
}

/// Rendering distributes over appending operation lists.
pub proof fn lemma_render_ops_concat(a: Seq<OpModel>, b: Seq<OpModel>)
    ensures
        render_ops(a + b) == render_ops(a) + render_ops(b),
    decreases b.len(),
{
    if b.len() == 0 {
        assert(a + b =~= a);
        assert(render_ops(a) + render_ops(b) =~= render_ops(a));
    } else {
        lemma_render_ops_concat(a, b.drop_last());
        assert((a + b).drop_last() =~= a + b.drop_last());
        assert((a + b).last() == b.last());
        assert(render_ops(a) + render_ops(b) =~= (render_ops(a) + render_ops(b.drop_last()))
            + render_op(b.last()) + seq![10u8]);
    }
}

/// Rendering distributes over appending field lists.
pub proof fn lemma_render_fields_concat(a: Seq<Seq<u8>>, b: Seq<Seq<u8>>)
    ensures
        render_fields(a + b) == render_fields(a) + render_fields(b),
    decreases b.len(),
{
    if b.len() == 0 {
        assert(a + b =~= a);
        assert(render_fields(a) + render_fields(b) =~= render_fields(a));
    } else {
        lemma_render_fields_concat(a, b.drop_last());
        assert((a + b).drop_last() =~= a + b.drop_last());
        assert((a + b).last() == b.last());
        assert(render_fields(a) + render_fields(b) =~= (render_fields(a) + render_fields(
            b.drop_last(),
        )) + seq![32u8] + b.last());
    }
}

/// Appends the canonical decimal digits of `n`.
fn push_decimal(n: u64, out: &mut Vec<u8>)
    ensures
        final(out)@ == old(out)@ + dec_digits(n as nat),
    decreases n,
{
    if n < 10 {
        out.push(48 + n as u8);
        proof {
            assert(out@ =~= old(out)@ + dec_digits(n as nat));
        }
    } else {
        push_decimal(n / 10, out);
        out.push(48 + (n % 10) as u8);
        proof {
            assert(out@ =~= old(out)@ + dec_digits(n as nat));
        }
    }
}

/// Appends a name.
fn push_name(name: &Vec<u8>, out: &mut Vec<u8>)
    ensures
        final(out)@ == old(out)@ + name@,
{
    let mut i: usize = 0;
    while i < name.len()
        invariant
            i <= name@.len(),
            out@ == old(out)@ + name@.take(i as int),
        decreases name@.len() - i,
    {
        out.push(name[i]);
        proof {
            assert(out@ =~= old(out)@ + name@.take(i + 1));
        }
        i = i + 1;
    }
    proof {
        assert(out@ =~= old(out)@ + name@);
    }
}

/// The numeric tag of an index kind.
fn kind_tag_of(k: IndexKind) -> (r: u64)
    ensures
        r as nat == kind_tag(k),
{
    match k {
        IndexKind::Hash => 1,
        IndexKind::Persistent => 2,
        IndexKind::Skiplist => 3,
        IndexKind::Ttl => 4,
        IndexKind::Geo => 5,
        IndexKind::Fulltext => 6,
    }
}

/// Appends one operation line, without its line feed.
fn push_op(op: &Operation, out: &mut Vec<u8>)
    ensures
        final(out)@ == old(out)@ + render_op(op@),
{
    match op {
        Operation::CreateCollection { name } => {
            push_decimal(1, out);
            out.push(32);
            push_name(name, out);
        },
        Operation::DropCollection { name } => {
            push_decimal(2, out);
            out.push(32);
            push_name(name, out);
        },
        Operation::CreateEdgeCollection { name } => {
            push_decimal(3, out);
            out.push(32);
            push_name(name, out);
        },
        Operation::DropEdgeCollection { name } => {
            push_decimal(4, out);
            out.push(32);
            push_name(name, out);
        },
        Operation::CreateIndex { collection, fields, index_kind } => {
            push_decimal(5, out);
            out.push(32);
            push_name(collection, out);
            out.push(32);
            push_decimal(kind_tag_of(*index_kind), out);
            push_fields(fields, out);
        },
        Operation::DropIndex { collection, index_id } => {
            push_decimal(6, out);
            out.push(32);
            push_name(collection, out);
            out.push(32);
            push_decimal(kind_tag_of(index_id.kind), out);
            push_fields(&index_id.fields, out);
        },
    }
    proof {
        assert(out@ =~= old(out)@ + render_op(op@));
    }
}

/// Appends the fields of an index line, each preceded by one space.
fn push_fields(fields: &Vec<Vec<u8>>, out: &mut Vec<u8>)
    ensures
        final(out)@ == old(out)@ + render_fields(names_view(fields@)),
{
    let mut i: usize = 0;
    while i < fields.len()
        invariant
            i <= fields@.len(),
            out@ == old(out)@ + render_fields(names_view(fields@).take(i as int)),
        decreases fields@.len() - i,
    {
        proof {
            assert(render_fields(names_view(fields@).take(i as int)) =~= render_fields(
                names_view(fields@).take(i + 1).drop_last(),
            ) + Seq::<u8>::empty()) by {
                assert(names_view(fields@).take(i + 1).drop_last() =~= names_view(
                    fields@,
                ).take(i as int));
            }
        }
        out.push(32);
        push_name(&fields[i], out);
        proof {
            assert(names_view(fields@).take(i + 1).last() == fields@[i as int]@);
            assert(out@ =~= old(out)@ + render_fields(names_view(fields@).take(i + 1)));
        }
        i = i + 1;
    }
    proof {
        assert(names_view(fields@).take(fields@.len() as int) =~= names_view(fields@));
        assert(out@ =~= old(out)@ + render_fields(names_view(fields@)));
    }
}

/// Writes the definition text of a migration.
pub fn render(m: &Migration) -> (r: Vec<u8>)
    ensures
        r@ == spec_render(m@),
{
    let mut out: Vec<u8> = Vec::new();
    push_decimal(m.version, &mut out);
    out.push(10);
    push_name(&m.name, &mut out);
    out.push(10);
    push_decimal(m.up_operations.len() as u64, &mut out);
    out.push(10);
    push_ops(&m.up_operations, &mut out);
    push_decimal(m.down_operations.len() as u64, &mut out);
    out.push(10);
    push_ops(&m.down_operations, &mut out);
    proof {
        assert(out@ =~= spec_render(m@));
    }
    out
}

/// Appends a list of operation lines.
fn push_ops(ops: &Vec<Operation>, out: &mut Vec<u8>)
    ensures
        final(out)@ == old(out)@ + render_ops(crate::database::ops_of(ops@)),
{
    let ghost all = crate::database::ops_of(ops@);
    let mut i: usize = 0;
    while i < ops.len()
        invariant
            i <= all.len(),
            out@ == old(out)@ + render_ops(all.take(i as int)),
        decreases all.len() - i,
    {
        push_op(&ops[i], out);
        out.push(10);
        proof {
            assert(all.take(i + 1).drop_last() =~= all.take(i as int));
            assert(all.take(i + 1).last() == all[i as int]);
            assert(out@ =~= old(out)@ + render_ops(all.take(i + 1)));
        }
        i = i + 1;
    }
    proof {
        assert(all.take(all.len() as int) =~= all);
        assert(out@ =~= old(out)@ + render_ops(all));
    }
}

/// Whether a byte is a decimal digit.
fn is_digit(b: u8) -> (r: bool)
    ensures
        r == (48 <= b <= 57),
{
    48 <= b && b <= 57
}

/// Whether a byte may stand in a name.
fn is_label_byte_exec(b: u8) -> (r: bool)
    ensures
        r == is_label_byte(b),
{
    (48 <= b && b <= 57) || (65 <= b && b <= 90) || (97 <= b && b <= 122) || b == 95 || b == 45
        || b == 46
}

/// The hypothesis that canonical digits of `v` stand at `start..p`, closed
/// by something that is not a digit.
pub open spec fn number_at(bytes: Seq<u8>, start: int, v: u64, p: int) -> bool {
    &&& start <= p <= bytes.len()
    &&& bytes.subrange(start, p) == dec_digits(v as nat)
    &&& (p == bytes.len() || !(48 <= bytes[p] <= 57))
}

/// Scans a canonical decimal number: sound — the consumed bytes are exactly
/// the canonical digits of the returned value — and complete — where
/// canonical digits stand, they are read back.
#[verifier::rlimit(60)]
fn parse_number(bytes: &[u8], start: usize) -> (r: Option<(u64, usize)>)
    requires
        start <= bytes@.len(),
    ensures
        r matches Some((v, p)) ==> start < p <= bytes@.len() && bytes@.subrange(
            start as int,
            p as int,
        ) == dec_digits(v as nat),
        forall|v: u64, p: int|
            #[trigger] number_at(bytes@, start as int, v, p) ==> (r matches Some(t) && t.0 == v
                && t.1 == p),
{
    if start >= bytes.len() || !is_digit(bytes[start]) {
        proof {
            assert forall|v: u64, p: int| #[trigger] number_at(
                bytes@,
                start as int,
                v,
                p,
            ) implies false by {
                lemma_dec_digits_shape(v as nat);
                assert(bytes@.subrange(start as int, p)[0] == bytes@[start as int]);
            }
        }
        return None;
    }
    let d0 = bytes[start] - 48;
    if d0 == 0 {
        proof {
            assert(bytes@.subrange(start as int, start + 1) =~= dec_digits(0));
            assert forall|v: u64, p: int| #[trigger] number_at(
                bytes@,
                start as int,
                v,
                p,
            ) implies v == 0 && p == start + 1 by {
                lemma_dec_digits_shape(v as nat);
                assert(bytes@.subrange(start as int, p)[0] == bytes@[start as int]);
                assert(v == 0);
                assert(dec_digits(0).len() == 1);
            }
        }
        return Some((0, start + 1));
    }
    let mut acc: u64 = d0 as u64;
    let mut pos: usize = start + 1;
    proof {
        assert(bytes@.subrange(start as int, pos as int) =~= dec_digits(acc as nat));
    }
    while pos < bytes.len() && is_digit(bytes[pos])
        invariant
            start < pos <= bytes@.len(),
            1 <= acc,
            bytes@.subrange(start as int, pos as int) == dec_digits(acc as nat),
        decreases bytes@.len() - pos,
    {
        let d = (bytes[pos] - 48) as u64;
        proof {
            // Under any canonical-number hypothesis the next accumulation
            // stays a prefix of that number's digits and cannot overflow.
            assert forall|v: u64, p: int| #[trigger] number_at(
                bytes@,
                start as int,
                v,
                p,
            ) implies acc <= (u64::MAX - d) / 10 by {
                lemma_dec_digits_shape(v as nat);
                lemma_dec_digits_shape(acc as nat);
                let digits = dec_digits(v as nat);
                assert(pos < p) by {
                    if p <= pos as int {
                        assert(bytes@[pos as int] == bytes@.subrange(start as int, pos as int)[
                            pos - start
                        ] || p < pos as int ==> true);
                        if p < bytes@.len() {
                            assert(bytes@[p] == dec_digits(acc as nat)[p - start]);
                        } else {
                            assert(pos < bytes@.len());
                        }
                    }
                }
                assert(bytes@.subrange(start as int, pos as int) =~= digits.take(
                    pos - start as int,
                ));
                assert(bytes@.subrange(start as int, pos + 1) =~= digits.take(
                    pos + 1 - start as int,
                ));
                lemma_dec_value_prefix(digits, pos + 1 - start as int);
                assert(dec_value(digits.take(pos - start as int)) == acc);
                assert(digits.take(pos + 1 - start as int).drop_last() =~= digits.take(
                    pos - start as int,
                ));
                assert(digits.take(pos + 1 - start as int).last() == bytes@[pos as int]);
                assert(dec_value(digits.take(pos + 1 - start as int)) == acc * 10 + d);
                assert(acc * 10 + d <= v);
                assert(acc <= (u64::MAX - d) / 10) by (nonlinear_arith)
                    requires
                        acc * 10 + d <= u64::MAX,
                        d <= 9,
                        0 <= acc,
                ;
            }
        }
        if acc > (u64::MAX - d) / 10 {
            proof {
                assert forall|v: u64, p: int| #[trigger] number_at(
                    bytes@,
                    start as int,
                    v,
                    p,
                ) implies false by {}
            }
            return None;
        }
        proof {
            assert(acc * 10 + d <= u64::MAX) by (nonlinear_arith)
                requires
                    acc <= (u64::MAX - d) / 10,
                    d <= 9,
            ;
        }
        let next = acc * 10 + d;
        proof {
            assert(next as nat / 10 == acc as nat && next as nat % 10 == d as nat)
                by (nonlinear_arith)
                requires
                    next == acc * 10 + d,
                    d <= 9,
                    1 <= acc,
            ;
            assert(next >= 10) by (nonlinear_arith)
                requires
                    next == acc * 10 + d,
                    1 <= acc,
            ;
            assert(dec_digits(next as nat) == dec_digits(acc as nat) + seq![bytes@[pos as int]]);
            assert(bytes@.subrange(start as int, pos + 1) =~= bytes@.subrange(
                start as int,
                pos as int,
            ) + seq![bytes@[pos as int]]);
        }
        acc = next;
        pos = pos + 1;
    }
    proof {
        assert forall|v: u64, p: int| #[trigger] number_at(
            bytes@,
            start as int,
            v,
            p,
        ) implies acc == v && pos as int == p by {
            lemma_dec_digits_shape(v as nat);
            lemma_dec_digits_shape(acc as nat);
            let digits = dec_digits(v as nat);
            assert(p == pos) by {
                if p < pos {
                    assert(bytes@[p] == bytes@.subrange(start as int, pos as int)[p - start]);
                    assert(48 <= bytes@[p] <= 57);
                    assert(p < bytes@.len());
                } else if p > pos {
                    assert(pos < bytes@.len());
                    assert(bytes@[pos as int] == digits[pos - start as int]);
                    assert(48 <= bytes@[pos as int] <= 57);
                }
            }
            assert(dec_digits(acc as nat) == digits);
            assert(dec_value(dec_digits(acc as nat)) == dec_value(digits));
        }
    }
    Some((acc, pos))
}

/// The hypothesis that the label `nm` stands at `start..p`, closed by
/// something that is not a label byte.
pub open spec fn label_at(bytes: Seq<u8>, start: int, nm: Seq<u8>, p: int) -> bool {
    &&& start <= p <= bytes.len()
    &&& bytes.subrange(start, p) == nm
    &&& is_label(nm)
    &&& (p == bytes.len() || !is_label_byte(bytes[p]))
}

/// Scans a name: sound — the consumed bytes are exactly the returned name —
/// and complete — where a label stands, it is read back.
fn parse_name(bytes: &[u8], start: usize) -> (r: Option<(Vec<u8>, usize)>)
    requires
        start <= bytes@.len(),
    ensures
        r matches Some((name, p)) ==> start < p <= bytes@.len() && bytes@.subrange(
            start as int,
            p as int,
        ) == name@ && is_label(name@),
        forall|nm: Seq<u8>, p: int|
            #[trigger] label_at(bytes@, start as int, nm, p) ==> (r matches Some(t) && t.0@ == nm
                && t.1 == p),
{
    let mut name: Vec<u8> = Vec::new();
    let mut pos: usize = start;
    while pos < bytes.len() && is_label_byte_exec(bytes[pos])
        invariant
            start <= pos <= bytes@.len(),
            bytes@.subrange(start as int, pos as int) == name@,
            name@.len() == pos - start,
            forall|i: int| 0 <= i < name@.len() ==> is_label_byte(#[trigger] name@[i]),
        decreases bytes@.len() - pos,
    {
        name.push(bytes[pos]);
        proof {
            assert(bytes@.subrange(start as int, pos + 1) =~= bytes@.subrange(
                start as int,
                pos as int,
            ) + seq![bytes@[pos as int]]);
        }
        pos = pos + 1;
    }
    proof {
        assert forall|nm: Seq<u8>, p: int| #[trigger] label_at(
            bytes@,
            start as int,
            nm,
            p,
        ) implies pos as int == p by {
            assert(nm.len() == p - start);
            if p < pos {
                assert(bytes@[p] == bytes@.subrange(start as int, pos as int)[p - start]);
                assert(is_label_byte(bytes@[p]));
                assert(p < bytes@.len());
            } else if p > pos {
                assert(pos < bytes@.len());
                assert(bytes@[pos as int] == nm[pos - start as int]);
                assert(is_label_byte(bytes@[pos as int]));
            }
        }
    }
    if pos == start {
        proof {
            assert forall|nm: Seq<u8>, p: int| #[trigger] label_at(
                bytes@,
                start as int,
                nm,
                p,
            ) implies false by {
                assert(nm.len() >= 1);
            }
        }
        return None;
    }
    Some((name, pos))
}

/// The hypothesis that the line for `op`, closed by its line feed, stands at
/// `start..p`.
pub open spec fn op_line_at(bytes: Seq<u8>, start: int, op: OpModel, p: int) -> bool {
    &&& 0 <= start <= p <= bytes.len()
    &&& bytes.subrange(start, p) == render_op(op) + seq![10u8]
    &&& op_wf_source(op)
}

/// Where the pieces of an operation line stand: the tag digits, the space,
/// the name, and — for an index operation — the kind digits and the fields,
/// each closed by the byte the scanners stop at.
#[verifier::rlimit(100)]
proof fn lemma_op_line_layout(bytes: Seq<u8>, start: int, op: OpModel, p: int)
    requires
        op_line_at(bytes, start, op, p),
    ensures
        1 <= op_tag(op) <= 6,
        number_at(bytes, start, op_tag(op) as u64, start + dec_digits(op_tag(op)).len()),
        bytes[start + dec_digits(op_tag(op)).len()] == 32,
        label_at(
            bytes,
            start + dec_digits(op_tag(op)).len() + 1,
            op_name_of(op),
            start + dec_digits(op_tag(op)).len() + 1 + op_name_of(op).len(),
        ),
        !is_index_op(op) ==> p == start + dec_digits(op_tag(op)).len() + 1 + op_name_of(op).len()
            + 1 && bytes[p - 1] == 10,
        is_index_op(op) ==> ({
            let n_end = start + dec_digits(op_tag(op)).len() + 1 + op_name_of(op).len();
            let k = op_index_of(op).kind;
            let k_end = n_end + 1 + dec_digits(kind_tag(k)).len();
            &&& bytes[n_end] == 32
            &&& number_at(bytes, n_end + 1, kind_tag(k) as u64, k_end)
            &&& 1 <= kind_tag(k) <= 6
            &&& p == k_end + render_fields(op_index_of(op).fields).len() + 1
            &&& bytes.subrange(k_end, p - 1) == render_fields(op_index_of(op).fields)
            &&& bytes[p - 1] == 10
        }),
{
    let tag = op_tag(op);
    lemma_dec_digits_shape(tag);
    let line = render_op(op) + seq![10u8];
    let t_end = start + dec_digits(tag).len();
    let n_end = t_end + 1 + op_name_of(op).len();
    assert(bytes.subrange(start, p).len() == p - start);
    assert forall|i: int| start <= i < p implies bytes[i] == line[i - start] by {
        assert(bytes.subrange(start, p)[i - start] == bytes[i]);
    }
    assert(bytes.subrange(start, t_end) =~= dec_digits(tag));
    assert(bytes[t_end] == 32);
    assert(bytes.subrange(t_end + 1, n_end) =~= op_name_of(op));
    assert(number_at(bytes, start, tag as u64, t_end));
    if !is_index_op(op) {
        assert(p == n_end + 1);
        assert(bytes[p - 1] == 10);
        assert(label_at(bytes, t_end + 1, op_name_of(op), n_end));
    } else {
        let k = op_index_of(op).kind;
        lemma_dec_digits_shape(kind_tag(k));
        let k_end = n_end + 1 + dec_digits(kind_tag(k)).len();
        let rf = render_fields(op_index_of(op).fields);
        assert(bytes[n_end] == 32);
        assert(label_at(bytes, t_end + 1, op_name_of(op), n_end));
        assert(bytes.subrange(n_end + 1, k_end) =~= dec_digits(kind_tag(k)));
        assert(p == k_end + rf.len() + 1);
        assert(bytes.subrange(k_end, p - 1) =~= rf);
        assert(bytes[p - 1] == 10);
        if rf.len() == 0 {
            assert(bytes[k_end] == 10);
        } else {
            assert(op_index_of(op).fields.len() > 0);
            let fs = op_index_of(op).fields;
            assert(rf[0] == 32) by {
                lemma_render_fields_first(fs);
            }
            assert(bytes[k_end] == rf[0]);
        }
        assert(number_at(bytes, n_end + 1, kind_tag(k) as u64, k_end));
        assert(1 <= kind_tag(k) <= 6);
    }
}

/// A non-empty field list renders starting with its separating space.
proof fn lemma_render_fields_first(fs: Seq<Seq<u8>>)
    requires
        fs.len() > 0,
    ensures
        render_fields(fs).len() > 0,
        render_fields(fs)[0] == 32,
    decreases fs.len(),
{
    if fs.len() == 1 {
        assert(fs.drop_last() =~= Seq::<Seq<u8>>::empty());
        assert(render_fields(fs) == render_fields(fs.drop_last()) + seq![32u8] + fs.last());
    } else {
        lemma_render_fields_first(fs.drop_last());
    }
}

/// Inside the fields of a written index-operation line, the `j`-th field
/// stands after the fields before it, led by its space; when the fields are
/// exhausted the closing line feed stands instead.
#[verifier::rlimit(100)]
proof fn lemma_fields_layout(bytes: Seq<u8>, start: int, h: OpModel, p: int, pos: int, j: int)
    requires
        op_line_at(bytes, start, h, p),
        is_index_op(h),
        0 <= j <= op_index_of(h).fields.len(),
        pos == p - 1 - render_fields(op_index_of(h).fields).len() + render_fields(
            op_index_of(h).fields.take(j),
        ).len(),
    ensures
        j < op_index_of(h).fields.len() ==> pos < p - 1 && bytes[pos] == 32 && label_at(
            bytes,
            pos + 1,
            op_index_of(h).fields[j],
            pos + 1 + op_index_of(h).fields[j].len(),
        ) && pos + 1 + op_index_of(h).fields[j].len() == p - 1 - render_fields(
            op_index_of(h).fields,
        ).len() + render_fields(op_index_of(h).fields.take(j + 1)).len(),
        j == op_index_of(h).fields.len() ==> pos == p - 1 && bytes[pos] == 10,
{
    lemma_op_line_layout(bytes, start, h, p);
    let m = op_index_of(h).fields;
    let k_end = p - 1 - render_fields(m).len();
    assert forall|q: int| k_end <= q < p - 1 implies bytes[q] == render_fields(m)[q - k_end] by {
        assert(bytes.subrange(k_end, p - 1)[q - k_end] == bytes[q]);
    }
    if j == m.len() {
        assert(m.take(j) =~= m);
    } else {
        assert(m.take(j + 1).drop_last() =~= m.take(j));
        assert(m.take(j + 1).last() == m[j]);
        assert(render_fields(m.take(j + 1)) == render_fields(m.take(j)) + seq![32u8] + m[j]);
        assert(m.take(j + 1) + m.skip(j + 1) =~= m);
        lemma_render_fields_concat(m.take(j + 1), m.skip(j + 1));
        assert(render_fields(m) =~= render_fields(m.take(j)) + (seq![32u8] + m[j])
            + render_fields(m.skip(j + 1)));
        assert(bytes[pos] == 32);
        let fj_end = pos + 1 + m[j].len();
        assert(bytes.subrange(pos + 1, fj_end) =~= m[j]);
        assert(is_label(m[j]));
        if j + 1 < m.len() {
            lemma_render_fields_first(m.skip(j + 1));
            assert(bytes[fj_end] == render_fields(m)[fj_end - k_end]);
            assert(render_fields(m)[fj_end - k_end] == 32);
            assert(!is_label_byte(32u8));
        } else {
            assert(m.skip(j + 1) =~= Seq::<Seq<u8>>::empty());
            assert(fj_end == p - 1);
            assert(bytes[fj_end] == 10);
            assert(!is_label_byte(10u8));
        }
        assert(label_at(bytes, pos + 1, m[j], fj_end));
    }
}

/// Inside a stretch of written operation lines, the line for the `j`-th
/// operation stands right after the lines before it.
#[verifier::rlimit(100)]
proof fn lemma_ops_step(bytes: Seq<u8>, start: int, p: int, hops: Seq<OpModel>, j: int, pos: int)
    requires
        0 <= start <= p <= bytes.len(),
        bytes.subrange(start, p) == render_ops(hops),
        forall|i: int| 0 <= i < hops.len() ==> op_wf_source(#[trigger] hops[i]),
        0 <= j < hops.len(),
        pos == start + render_ops(hops.take(j)).len(),
    ensures
        op_line_at(bytes, pos, hops[j], pos + render_op(hops[j]).len() + 1),
        pos + render_op(hops[j]).len() + 1 == start + render_ops(hops.take(j + 1)).len(),
        start + render_ops(hops.take(j + 1)).len() <= p,
{
    assert(hops.take(j + 1).drop_last() =~= hops.take(j));
    assert(hops.take(j + 1).last() == hops[j]);
    assert(render_ops(hops.take(j + 1)) == render_ops(hops.take(j)) + render_op(hops[j])
        + seq![10u8]);
    assert(hops.take(j + 1) + hops.skip(j + 1) =~= hops);
    lemma_render_ops_concat(hops.take(j + 1), hops.skip(j + 1));
    assert(render_ops(hops) =~= render_ops(hops.take(j)) + (render_op(hops[j]) + seq![10u8])
        + render_ops(hops.skip(j + 1)));
    assert forall|q: int| start <= q < p implies bytes[q] == render_ops(hops)[q - start] by {
        assert(bytes.subrange(start, p)[q - start] == bytes[q]);
    }
    let lend = pos + render_op(hops[j]).len() + 1;
    assert(lend <= p);
    assert(bytes.subrange(pos, lend) =~= render_op(hops[j]) + seq![10u8]);
}

/// Scans one operation line, its closing line feed included: sound — the
/// consumed bytes are exactly the written line of the returned operation —
/// and complete — where a written line stands, it is read back through its
/// line feed.
#[verifier::rlimit(100)]
fn parse_op_line(bytes: &[u8], start: usize) -> (r: Result<(Operation, usize), ParseError>)
    requires
        start <= bytes@.len(),
    ensures
        r matches Ok((op, p)) ==> start < p <= bytes@.len() && bytes@.subrange(
            start as int,
            p as int,
        ) == render_op(op@) + seq![10u8] && op_wf_source(op@),
        forall|op: OpModel, p: int|
            #[trigger] op_line_at(bytes@, start as int, op, p) ==> (r matches Ok(t) && t.1 == p),
{
    let (tag, p1) = match parse_number(bytes, start) {
        Some(t) => t,
        None => {
            proof {
                assert forall|op: OpModel, p: int| #[trigger] op_line_at(
                    bytes@,
                    start as int,
                    op,
                    p,
                ) implies false by {
                    lemma_op_line_layout(bytes@, start as int, op, p);
                }
            }
            return Err(ParseError::MalformedOperation);
        },
    };
    if p1 >= bytes.len() || bytes[p1] != 32 {
        proof {
            assert forall|op: OpModel, p: int| #[trigger] op_line_at(
                bytes@,
                start as int,
                op,
                p,
            ) implies false by {
                lemma_op_line_layout(bytes@, start as int, op, p);
            }
        }
        return Err(ParseError::MalformedOperation);
    }
    if tag < 1 || tag > 6 {
        proof {
            assert forall|op: OpModel, p: int| #[trigger] op_line_at(
                bytes@,
                start as int,
                op,
                p,
            ) implies false by {
                lemma_op_line_layout(bytes@, start as int, op, p);
            }
        }
        return Err(ParseError::UnknownOperationKind);
    }
    let (name, p2) = match parse_name(bytes, p1 + 1) {
        Some(t) => t,
        None => {
            proof {
                assert forall|op: OpModel, p: int| #[trigger] op_line_at(
                    bytes@,
                    start as int,
                    op,
                    p,
                ) implies false by {
                    lemma_op_line_layout(bytes@, start as int, op, p);
                }
            }
            return Err(ParseError::MalformedOperation);
        },
    };
    proof {
        assert(bytes@.subrange(start as int, p2 as int) =~= bytes@.subrange(
            start as int,
            p1 as int,
        ) + seq![32u8] + name@) by {
            assert(bytes@.subrange(p1 as int, p1 + 1) =~= seq![32u8]);
        }
    }
    if tag <= 4 {
        if p2 >= bytes.len() || bytes[p2] != 10 {
            proof {
                assert forall|op: OpModel, p: int| #[trigger] op_line_at(
                    bytes@,
                    start as int,
                    op,
                    p,
                ) implies false by {
                    lemma_op_line_layout(bytes@, start as int, op, p);
                }
            }
            return Err(ParseError::MalformedOperation);
        }
        let op = if tag == 1 {
            Operation::CreateCollection { name }
        } else if tag == 2 {
            Operation::DropCollection { name }
        } else if tag == 3 {
            Operation::CreateEdgeCollection { name }
        } else {
            Operation::DropEdgeCollection { name }
        };
        proof {
            assert(bytes@.subrange(start as int, p2 + 1) =~= bytes@.subrange(
                start as int,
                p2 as int,
            ) + seq![10u8]);
            assert(bytes@.subrange(start as int, p2 + 1) =~= render_op(op@) + seq![10u8]);
            assert forall|h: OpModel, p: int| #[trigger] op_line_at(
                bytes@,
                start as int,
                h,
                p,
            ) implies p == p2 + 1 by {
                lemma_op_line_layout(bytes@, start as int, h, p);
            }
        }
        return Ok((op, p2 + 1));
    }
    if p2 >= bytes.len() || bytes[p2] != 32 {
        proof {
            assert forall|op: OpModel, p: int| #[trigger] op_line_at(
                bytes@,
                start as int,
                op,
                p,
            ) implies false by {
                lemma_op_line_layout(bytes@, start as int, op, p);
            }
        }
        return Err(ParseError::MalformedOperation);
    }
    let (kv, p3) = match parse_number(bytes, p2 + 1) {
        Some(t) => t,
        None => {
            proof {
                assert forall|op: OpModel, p: int| #[trigger] op_line_at(
                    bytes@,
                    start as int,
                    op,
                    p,
                ) implies false by {
                    lemma_op_line_layout(bytes@, start as int, op, p);
                }
            }
            return Err(ParseError::MalformedOperation);
        },
    };
    let kind = match kv {
        1 => IndexKind::Hash,
        2 => IndexKind::Persistent,
        3 => IndexKind::Skiplist,
        4 => IndexKind::Ttl,
        5 => IndexKind::Geo,
        6 => IndexKind::Fulltext,
        _ => {
            proof {
                assert forall|op: OpModel, p: int| #[trigger] op_line_at(
                    bytes@,
                    start as int,
                    op,
                    p,
                ) implies false by {
                    lemma_op_line_layout(bytes@, start as int, op, p);
                }
            }
            return Err(ParseError::UnknownOperationKind);
        },
    };
    proof {
        assert(bytes@.subrange(start as int, p3 as int) =~= bytes@.subrange(
            start as int,
            p2 as int,
        ) + seq![32u8] + dec_digits(kind_tag(kind))) by {
            assert(bytes@.subrange(p2 as int, p2 + 1) =~= seq![32u8]);
        }
    }
    let mut fields: Vec<Vec<u8>> = Vec::new();
    let mut pos: usize = p3;
    proof {
        assert forall|h: OpModel, p: int| #[trigger] op_line_at(
            bytes@,
            start as int,
            h,
            p,
        ) implies is_index_op(h) && fields@.len() <= op_index_of(h).fields.len() && pos as int == p
            - 1 - render_fields(op_index_of(h).fields).len() + render_fields(
            op_index_of(h).fields.take(fields@.len() as int),
        ).len() by {
            lemma_op_line_layout(bytes@, start as int, h, p);
            assert(op_tag(h) as u64 == tag);
            assert(is_index_op(h));
            assert(op_index_of(h).fields.take(0) =~= Seq::<Seq<u8>>::empty());
        }
    }
    while pos < bytes.len() && bytes[pos] == 32
        invariant
            p3 <= pos <= bytes@.len(),
            bytes@.subrange(p3 as int, pos as int) == render_fields(names_view(fields@)),
            forall|i: int| 0 <= i < fields@.len() ==> is_label(names_view(fields@)[i]),
            forall|h: OpModel, p: int|
                #[trigger] op_line_at(bytes@, start as int, h, p) ==> is_index_op(h)
                    && fields@.len() <= op_index_of(h).fields.len() && pos as int == p - 1
                    - render_fields(op_index_of(h).fields).len() + render_fields(
                    op_index_of(h).fields.take(fields@.len() as int),
                ).len(),
        decreases bytes@.len() - pos,
    {
        proof {
            assert forall|h: OpModel, p: int| #[trigger] op_line_at(
                bytes@,
                start as int,
                h,
                p,
            ) implies label_at(
                bytes@,
                pos + 1,
                op_index_of(h).fields[fields@.len() as int],
                pos + 1 + op_index_of(h).fields[fields@.len() as int].len(),
            ) && fields@.len() < op_index_of(h).fields.len() by {
                lemma_fields_layout(bytes@, start as int, h, p, pos as int, fields@.len() as int);
            }
        }
        let (f, pn) = match parse_name(bytes, pos + 1) {
            Some(t) => t,
            None => {
                proof {
                    assert forall|h: OpModel, p: int| #[trigger] op_line_at(
                        bytes@,
                        start as int,
                        h,
                        p,
                    ) implies false by {}
                }
                return Err(ParseError::MalformedOperation);
            },
        };
        let ghost fieldspre = fields@;
        fields.push(f);
        proof {
            assert(names_view(fields@).drop_last() =~= names_view(fieldspre));
            assert(names_view(fields@).last() == f@);
            assert(bytes@.subrange(p3 as int, pn as int) =~= bytes@.subrange(
                p3 as int,
                pos as int,
            ) + seq![32u8] + f@) by {
                assert(bytes@.subrange(pos as int, pos + 1) =~= seq![32u8]);
                assert(bytes@.subrange(pos + 1, pn as int) == f@);
            }
            assert(bytes@.subrange(p3 as int, pn as int) == render_fields(names_view(fields@)));
            assert forall|i: int| 0 <= i < fields@.len() implies is_label(
                names_view(fields@)[i],
            ) by {
                if i < fields@.len() - 1 {
                    assert(names_view(fields@)[i] == names_view(fieldspre)[i]);
                } else {
                    assert(names_view(fields@)[i] == f@);
                }
            }
            assert forall|h: OpModel, p: int| #[trigger] op_line_at(
                bytes@,
                start as int,
                h,
                p,
            ) implies fields@.len() <= op_index_of(h).fields.len() && pn as int == p - 1
                - render_fields(op_index_of(h).fields).len() + render_fields(
                op_index_of(h).fields.take(fields@.len() as int),
            ).len() by {
                lemma_fields_layout(bytes@, start as int, h, p, pos as int, fieldspre.len() as int);
                assert(f@ == op_index_of(h).fields[fieldspre.len() as int]);
                assert(pn as int == pos + 1 + op_index_of(h).fields[fieldspre.len() as int].len());
            }
        }
        pos = pn;
    }
    proof {
        assert forall|h: OpModel, p: int| #[trigger] op_line_at(
            bytes@,
            start as int,
            h,
            p,
        ) implies pos as int == p - 1 && bytes@[pos as int] == 10 by {
            lemma_fields_layout(bytes@, start as int, h, p, pos as int, fields@.len() as int);
            if fields@.len() < op_index_of(h).fields.len() {
                assert(bytes@[pos as int] == 32 && (pos as int) < p - 1);
            }
        }
    }
    if pos >= bytes.len() || bytes[pos] != 10 {
        proof {
            assert forall|h: OpModel, p: int| #[trigger] op_line_at(
                bytes@,
                start as int,
                h,
                p,
            ) implies false by {}
        }
        return Err(ParseError::MalformedOperation);
    }
    let op = if tag == 5 {
        Operation::CreateIndex { collection: name, fields, index_kind: kind }
    } else {
        Operation::DropIndex { collection: name, index_id: IndexId { fields, kind } }
    };
    proof {
        assert(bytes@.subrange(start as int, pos + 1) =~= bytes@.subrange(
            start as int,
            p3 as int,
        ) + bytes@.subrange(p3 as int, pos as int) + seq![10u8]);
        assert(bytes@.subrange(start as int, pos + 1) =~= render_op(op@) + seq![10u8]);
    }
    Ok((op, pos + 1))
}

/// A field list never renders shorter than its field count doubled.
proof fn lemma_render_fields_len(fs: Seq<Seq<u8>>)
    ensures
        render_fields(fs).len() >= fs.len(),
    decreases fs.len(),
{
    if fs.len() > 0 {
        lemma_render_fields_len(fs.drop_last());
    }
}

/// The hypothesis that exactly `count` written operation lines stand at
/// `start..p`.
pub open spec fn ops_at(bytes: Seq<u8>, start: int, ops: Seq<OpModel>, p: int, count: u64) -> bool {
    &&& 0 <= start <= p <= bytes.len()
    &&& bytes.subrange(start, p) == render_ops(ops)
    &&& ops.len() == count
    &&& forall|i: int| 0 <= i < ops.len() ==> op_wf_source(#[trigger] ops[i])
}

/// Scans exactly `count` operation lines: sound — the consumed bytes are
/// exactly the written lines of the returned operations — and complete —
/// where that many written lines stand, they are read back.
#[verifier::rlimit(100)]
fn parse_ops(bytes: &[u8], start: usize, count: u64) -> (r: Result<
    (Vec<Operation>, usize),
    ParseError,
>)
    requires
        start <= bytes@.len(),
    ensures
        r matches Ok((ops, p)) ==> start <= p <= bytes@.len() && bytes@.subrange(
            start as int,
            p as int,
        ) == render_ops(crate::database::ops_of(ops@)) && ops@.len() == count && (forall|i: int|
            0 <= i < ops@.len() ==> op_wf_source(#[trigger] crate::database::ops_of(ops@)[i])),
        forall|ops: Seq<OpModel>, p: int|
            #[trigger] ops_at(bytes@, start as int, ops, p, count) ==> (r matches Ok(t) && t.1
                == p),
{
    let mut ops: Vec<Operation> = Vec::new();
    let mut pos: usize = start;
    let mut i: u64 = 0;
    proof {
        assert(bytes@.subrange(start as int, pos as int) =~= render_ops(
            crate::database::ops_of(ops@),
        ));
        assert forall|hops: Seq<OpModel>, p: int| #[trigger] ops_at(
            bytes@,
            start as int,
            hops,
            p,
            count,
        ) implies pos as int == start + render_ops(hops.take(i as int)).len() by {
            assert(hops.take(0) =~= Seq::<OpModel>::empty());
        }
    }
    while i < count
        invariant
            start <= pos <= bytes@.len(),
            i <= count,
            ops@.len() == i,
            bytes@.subrange(start as int, pos as int) == render_ops(
                crate::database::ops_of(ops@),
            ),
            forall|i: int|
                0 <= i < ops@.len() ==> op_wf_source(#[trigger] crate::database::ops_of(ops@)[i]),
            forall|hops: Seq<OpModel>, p: int|
                #[trigger] ops_at(bytes@, start as int, hops, p, count) ==> pos as int == start
                    + render_ops(hops.take(i as int)).len(),
        decreases count - i,
    {
        proof {
            assert forall|hops: Seq<OpModel>, p: int| #[trigger] ops_at(
                bytes@,
                start as int,
                hops,
                p,
                count,
            ) implies op_line_at(
                bytes@,
                pos as int,
                hops[i as int],
                pos + render_op(hops[i as int]).len() + 1,
            ) by {
                lemma_ops_step(bytes@, start as int, p, hops, i as int, pos as int);
            }
        }
        let (op, pn) = match parse_op_line(bytes, pos) {
            Ok(t) => t,
            Err(e) => {
                proof {
                    assert forall|hops: Seq<OpModel>, p: int| #[trigger] ops_at(
                        bytes@,
                        start as int,
                        hops,
                        p,
                        count,
                    ) implies false by {}
                }
                return Err(e);
            },
        };
        let ghost opspre = ops@;
        ops.push(op);
        proof {
            assert(crate::database::ops_of(ops@).drop_last() =~= crate::database::ops_of(opspre));
            assert(crate::database::ops_of(ops@).last() == op@);
            assert(bytes@.subrange(start as int, pn as int) =~= bytes@.subrange(
                start as int,
                pos as int,
            ) + bytes@.subrange(pos as int, pn as int));
            assert(bytes@.subrange(start as int, pn as int) == render_ops(
                crate::database::ops_of(ops@),
            ));
            assert forall|j: int| 0 <= j < ops@.len() implies op_wf_source(
                #[trigger] crate::database::ops_of(ops@)[j],
            ) by {
                if j < ops@.len() - 1 {
                    assert(crate::database::ops_of(ops@)[j] == crate::database::ops_of(
                        opspre,
                    )[j]);
                } else {
                    assert(crate::database::ops_of(ops@)[j] == op@);
                }
            }
            assert forall|hops: Seq<OpModel>, p: int| #[trigger] ops_at(
                bytes@,
                start as int,
                hops,
                p,
                count,
            ) implies pn as int == start + render_ops(hops.take(i + 1)).len() by {
                lemma_ops_step(bytes@, start as int, p, hops, i as int, pos as int);
                assert(pn as int == pos + render_op(hops[i as int]).len() + 1);
            }
        }
        pos = pn;
        i = i + 1;
    }
    proof {
        assert forall|hops: Seq<OpModel>, p: int| #[trigger] ops_at(
            bytes@,
            start as int,
            hops,
            p,
            count,
        ) implies pos as int == p by {
            assert(hops.take(count as int) =~= hops);
            assert(p - start == render_ops(hops).len());
        }
    }
    Ok((ops, pos))
}

/// Where the pieces of a whole definition text stand: the version digits,
/// the name, the two counts and the two stretches of operation lines, each
/// closed by the byte the scanners stop at.
#[verifier::rlimit(100)]
proof fn lemma_definition_layout(bytes: Seq<u8>, m: MigrationModel)
    requires
        wf_source(m),
        bytes == spec_render(m),
    ensures
        ({
            let o0 = dec_digits(m.version as nat).len() as int;
            let o1 = o0 + 1 + m.name.len();
            let o2 = o1 + 1 + dec_digits(m.up.len()).len();
            let o3 = o2 + 1 + render_ops(m.up).len();
            let o4 = o3 + dec_digits(m.down.len()).len();
            let o5 = o4 + 1 + render_ops(m.down).len();
            &&& bytes.len() == o5
            &&& number_at(bytes, 0, m.version, o0)
            &&& bytes[o0] == 10
            &&& label_at(bytes, o0 + 1, m.name, o1)
            &&& bytes[o1] == 10
            &&& number_at(bytes, o1 + 1, m.up.len() as u64, o2)
            &&& bytes[o2] == 10
            &&& ops_at(bytes, o2 + 1, m.up, o3, m.up.len() as u64)
            &&& number_at(bytes, o3, m.down.len() as u64, o4)
            &&& bytes[o4] == 10
            &&& ops_at(bytes, o4 + 1, m.down, o5, m.down.len() as u64)
        }),
{
    lemma_dec_digits_shape(m.version as nat);
    lemma_dec_digits_shape(m.up.len());
    lemma_dec_digits_shape(m.down.len());
    let o0 = dec_digits(m.version as nat).len() as int;
    let o1 = o0 + 1 + m.name.len();
    let o2 = o1 + 1 + dec_digits(m.up.len()).len();
    let o3 = o2 + 1 + render_ops(m.up).len();
    let o4 = o3 + dec_digits(m.down.len()).len();
    let o5 = o4 + 1 + render_ops(m.down).len();
    assert(bytes.len() == o5);
    assert(bytes.subrange(0, o0) =~= dec_digits(m.version as nat));
    assert(bytes[o0] == 10);
    assert(bytes.subrange(o0 + 1, o1) =~= m.name);
    assert(bytes[o1] == 10);
    assert(bytes.subrange(o1 + 1, o2) =~= dec_digits(m.up.len()));
    assert(bytes[o2] == 10);
    assert(bytes.subrange(o2 + 1, o3) =~= render_ops(m.up));
    assert(bytes.subrange(o3, o4) =~= dec_digits(m.down.len()));
    assert(bytes[o4] == 10);
    assert(bytes.subrange(o4 + 1, o5) =~= render_ops(m.down));
    assert((m.up.len() as u64) as nat == m.up.len());
    assert((m.down.len() as u64) as nat == m.down.len());
    assert(number_at(bytes, 0, m.version, o0));
    assert(label_at(bytes, o0 + 1, m.name, o1));
    assert(number_at(bytes, o1 + 1, m.up.len() as u64, o2));
    assert(ops_at(bytes, o2 + 1, m.up, o3, m.up.len() as u64));
    assert(o4 == bytes.len() || !(48 <= bytes[o4] <= 57));
    assert(number_at(bytes, o3, m.down.len() as u64, o4));
    assert(ops_at(bytes, o4 + 1, m.down, o5, m.down.len() as u64));
}

/// Parses a migration definition. Sound against the written form — any
/// accepted text is exactly the rendering of the returned migration — and
/// complete — every written definition is accepted.
#[verifier::rlimit(100)]
pub fn parse(bytes: &[u8]) -> (r: Result<Migration, ParseError>)
    ensures
        r matches Ok(m) ==> wf_source(m@) && bytes@ == spec_render(m@),
        is_definition(bytes@) ==> r is Ok,
{
    let (version, p0) = match parse_number(bytes, 0) {
        Some(t) => t,
        None => {
            proof {
                if is_definition(bytes@) {
                    let m = choose|m: MigrationModel| wf_source(m) && bytes@ == spec_render(m);
                    lemma_definition_layout(bytes@, m);
                }
            }
            return Err(ParseError::MalformedVersion);
        },
    };
    if p0 >= bytes.len() || bytes[p0] != 10 {
        proof {
            if is_definition(bytes@) {
                let m = choose|m: MigrationModel| wf_source(m) && bytes@ == spec_render(m);
                lemma_definition_layout(bytes@, m);
            }
        }
        return Err(ParseError::MalformedVersion);
    }
    let (name, p1) = match parse_name(bytes, p0 + 1) {
        Some(t) => t,
        None => {
            proof {
                if is_definition(bytes@) {
                    let m = choose|m: MigrationModel| wf_source(m) && bytes@ == spec_render(m);
                    lemma_definition_layout(bytes@, m);
                }
            }
            return Err(ParseError::MalformedName);
        },
    };
    if p1 >= bytes.len() || bytes[p1] != 10 {
        proof {
            if is_definition(bytes@) {
                let m = choose|m: MigrationModel| wf_source(m) && bytes@ == spec_render(m);
                lemma_definition_layout(bytes@, m);
            }
        }
        return Err(ParseError::MalformedName);
    }
    let (n_up, p2) = match parse_number(bytes, p1 + 1) {
        Some(t) => t,
        None => {
            proof {
                if is_definition(bytes@) {
                    let m = choose|m: MigrationModel| wf_source(m) && bytes@ == spec_render(m);
                    lemma_definition_layout(bytes@, m);
                }
            }
            return Err(ParseError::MalformedCount);
        },
    };
    if p2 >= bytes.len() || bytes[p2] != 10 {
        proof {
            if is_definition(bytes@) {
                let m = choose|m: MigrationModel| wf_source(m) && bytes@ == spec_render(m);
                lemma_definition_layout(bytes@, m);
            }
        }
        return Err(ParseError::MalformedCount);
    }
    let (up_operations, p3) = match parse_ops(bytes, p2 + 1, n_up) {
        Ok(t) => t,
        Err(e) => {
            proof {
                if is_definition(bytes@) {
                    let m = choose|m: MigrationModel| wf_source(m) && bytes@ == spec_render(m);
                    lemma_definition_layout(bytes@, m);
                }
            }
            return Err(e);
        },
    };
    let (n_down, p4) = match parse_number(bytes, p3) {
        Some(t) => t,
        None => {
            proof {
                if is_definition(bytes@) {
                    let m = choose|m: MigrationModel| wf_source(m) && bytes@ == spec_render(m);
                    lemma_definition_layout(bytes@, m);
                }
            }
            return Err(ParseError::MalformedCount);
        },
    };
    if p4 >= bytes.len() || bytes[p4] != 10 {
        proof {
            if is_definition(bytes@) {
                let m = choose|m: MigrationModel| wf_source(m) && bytes@ == spec_render(m);
                lemma_definition_layout(bytes@, m);
            }
        }
        return Err(ParseError::MalformedCount);
    }
    let (down_operations, p5) = match parse_ops(bytes, p4 + 1, n_down) {
        Ok(t) => t,
        Err(e) => {
            proof {
                if is_definition(bytes@) {
                    let m = choose|m: MigrationModel| wf_source(m) && bytes@ == spec_render(m);
                    lemma_definition_layout(bytes@, m);
                }
            }
            return Err(e);
        },
    };
    if p5 != bytes.len() {
        proof {
            if is_definition(bytes@) {
                let m = choose|m: MigrationModel| wf_source(m) && bytes@ == spec_render(m);
                lemma_definition_layout(bytes@, m);
            }
        }
        return Err(ParseError::TrailingContent);
    }
    let m = Migration { version, name, up_operations, down_operations };
    proof {
        assert(bytes@ =~= bytes@.subrange(0, p0 as int) + seq![10u8] + bytes@.subrange(
            p0 + 1,
            p1 as int,
        ) + seq![10u8] + bytes@.subrange(p1 + 1, p2 as int) + seq![10u8] + bytes@.subrange(
            p2 + 1,
            p3 as int,
        ) + bytes@.subrange(p3 as int, p4 as int) + seq![10u8] + bytes@.subrange(
            p4 + 1,
            p5 as int,
        ));
        assert(bytes@ == spec_render(m@));
    }
    Ok(m)
}

impl Migration {
    /// Parses a migration definition read from disk. Sound against the
    /// written form — any accepted text is exactly the rendering of the
    /// returned migration — and complete — every written definition is
    /// accepted.
    pub fn load(bytes: &[u8]) -> (r: Result<Migration, ParseError>)
        ensures
            r matches Ok(m) ==> wf_source(m@) && bytes@ == spec_render(m@),
            is_definition(bytes@) ==> r is Ok,
    {
        parse(bytes)
    }
}

} // verus!
