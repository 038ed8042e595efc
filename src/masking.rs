//! Column masking of the rows that the server sends: strategies that rewrite
//! one field, and the handler that tracks which columns of a result set are
//! left alone.

use vstd::prelude::*;
use crate::backend::{columns_view, fields_view, BackendModel, Message, RowDescription};
use crate::wire::{copy_range, opt_view, sized_bytes, u32_bytes, NULL_LENGTH};

verus! {

/// The byte that masked characters become.
pub const MASK_BYTE: u8 = 42;

/// Default number of mask bytes that `CaviarMask` writes.
pub const CAVIAR_LENGTH: usize = 6;

pub open spec fn is_ascii_alphanumeric(b: u8) -> bool {
    (48 <= b && b <= 57) || (65 <= b && b <= 90) || (97 <= b && b <= 122)
}

/// A rewriting of one field value.
pub trait MaskingStrategy {
    spec fn spec_mask(&self, data: Seq<u8>) -> Seq<u8>;

    fn mask(&self, data: &[u8]) -> (r: Vec<u8>)
        ensures
            r@ == self.spec_mask(data@),
    ;
}

/// Replaces any value, the empty one too, by `length` mask bytes.
#[derive(Clone, Copy, Debug)]
pub struct CaviarMask {
    pub length: usize,
}

impl CaviarMask {
    pub fn new(length: usize) -> (r: CaviarMask)
        ensures
            r.length == length,
    {
        CaviarMask { length }
    }
}

impl MaskingStrategy for CaviarMask {
    open spec fn spec_mask(&self, data: Seq<u8>) -> Seq<u8> {
        Seq::new(self.length as nat, |i: int| MASK_BYTE)
    }

    fn mask(&self, data: &[u8]) -> (r: Vec<u8>) {
        let mut r: Vec<u8> = Vec::with_capacity(self.length);
        let mut i: usize = 0;
        while i < self.length
            invariant
                i <= self.length,
                r@ =~= Seq::new(i as nat, |k: int| MASK_BYTE),
            decreases self.length - i,
        {
            r.push(MASK_BYTE);
            i = i + 1;
        }
        r
    }
}

/// Keeps the shape of a value: each ASCII letter or digit becomes a mask
/// byte, every other byte stays.
#[derive(Clone, Copy, Debug)]
pub struct CaviarShapeMask;

impl CaviarShapeMask {
    pub fn new() -> (r: CaviarShapeMask) {
        CaviarShapeMask
    }
}

pub open spec fn shape_byte(b: u8) -> u8 {
    if is_ascii_alphanumeric(b) {
        MASK_BYTE
    } else {
        b
    }
}

impl MaskingStrategy for CaviarShapeMask {
    open spec fn spec_mask(&self, data: Seq<u8>) -> Seq<u8> {
        data.map_values(|b: u8| shape_byte(b))
    }

    fn mask(&self, data: &[u8]) -> (r: Vec<u8>) {
        let mut r: Vec<u8> = Vec::with_capacity(data.len());
        let mut i: usize = 0;
        while i < data.len()
            invariant
                i <= data@.len(),
                r@ =~= data@.take(i as int).map_values(|b: u8| shape_byte(b)),
            decreases data@.len() - i,
        {
            let c = data[i];
            let ascii_alnum = (48 <= c && c <= 57) || (65 <= c && c <= 90) || (97 <= c && c <= 122);
            if ascii_alnum {
                r.push(MASK_BYTE);
            } else {
                r.push(c);
            }
            i = i + 1;
            assert(r@ =~= data@.take(i as int).map_values(|b: u8| shape_byte(b)));
        }
        assert(data@.take(i as int) =~= data@);
        r
    }
}

/// A law of the shape-preserving mask: it keeps the length, and a masked
/// byte stands exactly where the input holds an ASCII letter or digit, for
/// inputs that hold no mask byte themselves (a mask byte in the input is not
/// alphanumeric and is kept as it is).
pub proof fn lemma_shape_mask(m: CaviarShapeMask, b: Seq<u8>)
    requires
        forall|i: int| 0 <= i < b.len() ==> b[i] != MASK_BYTE,
    ensures
        m.spec_mask(b).len() == b.len(),
        forall|i: int|
            0 <= i < b.len() ==> (m.spec_mask(b)[i] == MASK_BYTE <==> is_ascii_alphanumeric(
                #[trigger] b[i],
            )),
{
}

/// A law of the fixed-length mask: its output is `length` mask bytes,
/// whatever the input, the empty one included.
pub proof fn lemma_caviar_mask(m: CaviarMask, b: Seq<u8>)
    ensures
        m.spec_mask(b).len() == m.length,
        forall|i: int| 0 <= i < m.length ==> m.spec_mask(b)[i] == MASK_BYTE,
        m.spec_mask(b) == m.spec_mask(Seq::<u8>::empty()),
{
}

/// The strategy that a handler applies.
#[derive(Clone, Copy, Debug)]
pub enum Strategy {
    Caviar(CaviarMask),
    CaviarShape(CaviarShapeMask),
}

impl Strategy {
    pub open spec fn spec_mask(&self, data: Seq<u8>) -> Seq<u8> {
        match self {
            Strategy::Caviar(m) => m.spec_mask(data),
            Strategy::CaviarShape(m) => m.spec_mask(data),
        }
    }

    pub fn mask(&self, data: &[u8]) -> (r: Vec<u8>)
        ensures
            r@ == self.spec_mask(data@),
    {
        match self {
            Strategy::Caviar(m) => m.mask(data),
            Strategy::CaviarShape(m) => m.mask(data),
        }
    }

    /// The strategy that a configured name selects: `caviar-preserve-shape`
    /// the shape-preserving one, anything else a six-byte caviar.
    pub fn from_name(name: &[u8]) -> (r: Strategy)
        ensures
            r == (if name@ == shape_strategy_name() {
                Strategy::CaviarShape(CaviarShapeMask)
            } else {
                Strategy::Caviar(CaviarMask { length: CAVIAR_LENGTH })
            }),
    {
        let shape: [u8; 21] = [
            99, 97, 118, 105, 97, 114, 45, 112, 114, 101, 115, 101, 114, 118, 101, 45, 115, 104,
            97, 112, 101,
        ];
        assert(shape@ =~= shape_strategy_name());
        if bytes_eq(name, shape.as_slice()) {
            Strategy::CaviarShape(CaviarShapeMask::new())
        } else {
            Strategy::Caviar(CaviarMask::new(CAVIAR_LENGTH))
        }
    }
}

/// `caviar-preserve-shape`
pub open spec fn shape_strategy_name() -> Seq<u8> {
    seq![
        99u8, 97u8, 118u8, 105u8, 97u8, 114u8, 45u8, 112u8, 114u8, 101u8, 115u8, 101u8, 114u8,
        118u8, 101u8, 45u8, 115u8, 104u8, 97u8, 112u8, 101u8,
    ]
}

/// Whether two byte strings are equal.
pub fn bytes_eq(a: &[u8], b: &[u8]) -> (r: bool)
    ensures
        r == (a@ == b@),
{
    if a.len() != b.len() {
        return false;
    }
    let mut i: usize = 0;
    while i < a.len()
        invariant
            i <= a@.len(),
            a@.len() == b@.len(),
            forall|k: int| 0 <= k < i ==> a@[k] == b@[k],
        decreases a@.len() - i,
    {
        if a[i] != b[i] {
            return false;
        }
        i = i + 1;
    }
    assert(a@ =~= b@);
    true
}

pub open spec fn names_view(ns: Seq<Vec<u8>>) -> Seq<Seq<u8>> {
    ns.map_values(|n: Vec<u8>| n@)
}

/// Whether `name` is one of `names`.
fn contains_name(names: &Vec<Vec<u8>>, name: &[u8]) -> (r: bool)
    ensures
        r == names_view(names@).contains(name@),
{
    let mut i: usize = 0;
    while i < names.len()
        invariant
            i <= names@.len(),
            forall|k: int| 0 <= k < i ==> names@[k]@ != name@,
        decreases names@.len() - i,
    {
        if bytes_eq(names[i].as_slice(), name) {
            assert(names_view(names@)[i as int] == name@);
            return true;
        }
        i = i + 1;
    }
    assert forall|k: int| 0 <= k < names_view(names@).len() implies names_view(names@)[k] != name@ by {
        assert(names@[k]@ != name@);
    }
    false
}

/// The exclusion list that stands for every column: a single `*`.
pub open spec fn is_wildcard(excluded: Seq<Seq<u8>>) -> bool {
    excluded.len() == 1 && excluded[0] == seq![MASK_BYTE]
}

/// A column left unmasked: excluded by name, or by the wildcard, and not
/// forced; a forced name is always masked.
pub open spec fn is_unmasked(excluded: Seq<Seq<u8>>, forced: Seq<Seq<u8>>, name: Seq<u8>) -> bool {
    &&& !forced.contains(name)
    &&& (is_wildcard(excluded) || excluded.contains(name))
}

/// What becomes of one field of a row.
pub open spec fn masked_field(s: Strategy, unmasked: bool, f: Option<Seq<u8>>) -> Option<Seq<u8>> {
    if unmasked {
        f
    } else {
        match f {
            Some(b) => Some(s.spec_mask(b)),
            None => None,
        }
    }
}

/// The fields of a row once masked: field `i` stays when `i` is among
/// `no_mask`, and NULL stays NULL.
pub open spec fn masked_row(s: Strategy, no_mask: Seq<usize>, fs: Seq<Option<Seq<u8>>>) -> Seq<Option<Seq<u8>>> {
    Seq::new(fs.len(), |i: int| masked_field(s, no_mask.contains(i as usize), fs[i]))
}

/// Masking a row keeps its number of fields and which of them are NULL.
pub proof fn lemma_masking_keeps_shape(s: Strategy, no_mask: Seq<usize>, fs: Seq<Option<Seq<u8>>>)
    ensures
        masked_row(s, no_mask, fs).len() == fs.len(),
        forall|i: int| 0 <= i < fs.len() ==> ((#[trigger] masked_row(s, no_mask, fs)[i]) is None
            <==> fs[i] is None),
{
}

/// A NULL field stays NULL whatever the strategy and the columns left
/// alone, and is written as the length prefix `FF FF FF FF` with no value
/// bytes.
pub proof fn lemma_null_survives(s: Strategy, no_mask: Seq<usize>, fs: Seq<Option<Seq<u8>>>, i: int)
    requires
        0 <= i < fs.len(),
        fs[i] is None,
    ensures
        masked_row(s, no_mask, fs)[i] is None,
        sized_bytes(masked_row(s, no_mask, fs)[i]) == seq![0xFFu8, 0xFFu8, 0xFFu8, 0xFFu8],
{
    let v = NULL_LENGTH;
    assert((v >> 24u32) as u8 == 0xFFu8 && ((v >> 16u32) & 0xffu32) as u8 == 0xFFu8 && ((v >> 8u32)
        & 0xffu32) as u8 == 0xFFu8 && (v & 0xffu32) as u8 == 0xFFu8) by (bit_vector)
        requires
            v == 0xFFFF_FFFFu32,
    ;
    assert(u32_bytes(v) =~= seq![0xFFu8, 0xFFu8, 0xFFu8, 0xFFu8]);
}

/// Where the handler stands in a query cycle: waiting for the columns of a
/// result, or masking its rows, with the indices of the columns left alone.
#[derive(Clone, Debug)]
pub enum QueryState {
    Description,
    Data(Vec<usize>),
}

/// Applies a masking strategy to the fields of `DataRow` messages, column by
/// column as the preceding `RowDescription` names them.
#[derive(Clone, Debug)]
pub struct DataMaskingHandler {
    pub state: QueryState,
    pub strategy: Strategy,
    pub columns_excluded: Vec<Vec<u8>>,
    pub columns_forced: Vec<Vec<u8>>,
}

impl DataMaskingHandler {
    /// A handler waiting for a result's columns, with the strategy that
    /// `strategy` names (a six-byte caviar when there is none), and the
    /// column names excluded from masking and forced into it.
    pub fn new(strategy: Option<&[u8]>, columns_excluded: Vec<Vec<u8>>, columns_forced: Vec<Vec<u8>>) -> (r: DataMaskingHandler)
        ensures
            r.state is Description,
            r.strategy == (match strategy {
                Some(name) => if name@ == shape_strategy_name() {
                    Strategy::CaviarShape(CaviarShapeMask)
                } else {
                    Strategy::Caviar(CaviarMask { length: CAVIAR_LENGTH })
                },
                None => Strategy::Caviar(CaviarMask { length: CAVIAR_LENGTH }),
            }),
            r.columns_excluded@ == columns_excluded@,
            r.columns_forced@ == columns_forced@,
    {
        let strategy = match strategy {
            Some(name) => Strategy::from_name(name),
            None => Strategy::Caviar(CaviarMask::new(CAVIAR_LENGTH)),
        };
        DataMaskingHandler { state: QueryState::Description, strategy, columns_excluded, columns_forced }
    }

    pub open spec fn excluded(&self) -> Seq<Seq<u8>> {
        names_view(self.columns_excluded@)
    }

    pub open spec fn forced(&self) -> Seq<Seq<u8>> {
        names_view(self.columns_forced@)
    }

    /// Whether `process` accepts `msg` now: a `DataRow` only after a
    /// `RowDescription`.
    pub open spec fn accepts_spec(&self, msg: BackendModel) -> bool {
        msg is DataRow ==> self.state is Data
    }

    pub fn accepts(&self, msg: &Message) -> (r: bool)
        ensures
            r == self.accepts_spec(msg@),
    {
        match msg {
            Message::DataRow(_) => match self.state {
                QueryState::Data(_) => true,
                QueryState::Description => false,
            },
            _ => true,
        }
    }

    /// The indices of the columns left alone while rows are masked.
    pub open spec fn no_mask(&self) -> Seq<usize> {
        match self.state {
            QueryState::Data(v) => v@,
            QueryState::Description => Seq::empty(),
        }
    }

    /// What `process` hands on for `msg`: a `DataRow` with its fields
    /// masked, any other message unchanged.
    pub open spec fn output(&self, msg: BackendModel) -> BackendModel {
        match msg {
            BackendModel::DataRow(fs) => BackendModel::DataRow(
                masked_row(self.strategy, self.no_mask(), fs),
            ),
            _ => msg,
        }
    }

    /// `next` is this handler after it processed `msg`: the configuration
    /// is kept; a `RowDescription` leaves alone exactly the excluded (or
    /// wildcard) columns that are not forced; a `CommandComplete` goes back
    /// to waiting for a description; any other message keeps the state.
    pub open spec fn next_state(&self, next: DataMaskingHandler, msg: BackendModel) -> bool {
        &&& next.strategy == self.strategy
        &&& next.columns_excluded@ == self.columns_excluded@
        &&& next.columns_forced@ == self.columns_forced@
        &&& match msg {
            BackendModel::RowDescription(cols) => next.state is Data && forall|i: usize|
                #![trigger next.no_mask().contains(i)]
                next.no_mask().contains(i) <==> (i < cols.len() && is_unmasked(
                self.excluded(), self.forced(), cols[i as int].name)),
            BackendModel::CommandComplete(_) => next.state is Description,
            _ => next.state == self.state,
        }
    }

    /// Passes a server message on, masking the fields of a `DataRow`: a
    /// `RowDescription` fixes the columns left alone until the next
    /// `CommandComplete`; other messages go through unchanged.
    pub fn process(&mut self, msg: Message) -> (r: Message)
        requires
            old(self).accepts_spec(msg@),
        ensures
            old(self).next_state(*final(self), msg@),
            r@ == old(self).output(msg@),
    {
        match msg {
            Message::RowDescription(columns) => {
                let no_mask = self.unmasked_columns(&columns);
                self.state = QueryState::Data(no_mask);
                let r = Message::RowDescription(columns);
                assert forall|i: usize| #![trigger self.no_mask().contains(i)]
                    self.no_mask().contains(i) <==> (i < columns_view(columns@).len() && is_unmasked(
                    self.excluded(), self.forced(), columns_view(columns@)[i as int].name)) by {
                    if i < columns@.len() {
                        assert(columns_view(columns@)[i as int].name == columns@[i as int].name@);
                    }
                }
                r
            },
            Message::CommandComplete(tag) => {
                self.state = QueryState::Description;
                Message::CommandComplete(tag)
            },
            Message::DataRow(fields) => {
                let masked = match &self.state {
                    QueryState::Data(no_mask) => self.mask_fields(fields, no_mask),
                    QueryState::Description => fields,
                };
                Message::DataRow(masked)
            },
            other => other,
        }
    }

    fn unmasked_columns(&self, columns: &Vec<RowDescription>) -> (r: Vec<usize>)
        ensures
            forall|i: usize| #![trigger r@.contains(i)] r@.contains(i) <==> (i < columns@.len()
                && is_unmasked(self.excluded(), self.forced(), columns@[i as int].name@)),
    {
        let wildcard = self.columns_excluded.len() == 1 && bytes_eq(self.columns_excluded[0].as_slice(), [MASK_BYTE].as_slice());
        assert(wildcard == is_wildcard(self.excluded())) by {
            if self.columns_excluded@.len() == 1 {
                assert(self.excluded()[0] == self.columns_excluded@[0]@);
                assert([MASK_BYTE]@ =~= seq![MASK_BYTE]);
            }
        }
        let mut no_mask: Vec<usize> = Vec::new();
        let mut idx: usize = 0;
        while idx < columns.len()
            invariant
                idx <= columns@.len(),
                wildcard == is_wildcard(self.excluded()),
                forall|i: usize| #![trigger no_mask@.contains(i)] no_mask@.contains(i) <==> (i < idx
                    && is_unmasked(self.excluded(), self.forced(), columns@[i as int].name@)),
            decreases columns@.len() - idx,
        {
            let name = columns[idx].name.as_slice();
            let keep = !contains_name(&self.columns_forced, name) && (wildcard || contains_name(&self.columns_excluded, name));
            let ghost before = no_mask@;
            if keep {
                no_mask.push(idx);
                assert forall|i: usize| #![trigger no_mask@.contains(i)] no_mask@.contains(i) <==> (i < idx + 1
                    && is_unmasked(self.excluded(), self.forced(), columns@[i as int].name@)) by {
                    if no_mask@.contains(i) && i != idx {
                        let k = choose|k: int| 0 <= k < no_mask@.len() && no_mask@[k] == i;
                        assert(before[k] == i);
                        assert(before.contains(i));
                    }
                    if i == idx {
                        assert(no_mask@[no_mask@.len() - 1] == idx);
                    } else if i < idx && is_unmasked(self.excluded(), self.forced(), columns@[i as int].name@) {
                        assert(before.contains(i));
                        let k = choose|k: int| 0 <= k < before.len() && before[k] == i;
                        assert(no_mask@[k] == i);
                    }
                }
            } else {
                assert(!no_mask@.contains(idx));
            }
            idx = idx + 1;
        }
        no_mask
    }

    fn mask_fields(&self, fields: Vec<Option<Vec<u8>>>, no_mask: &Vec<usize>) -> (r: Vec<Option<Vec<u8>>>)
        ensures
            fields_view(r@) == masked_row(self.strategy, no_mask@, fields_view(fields@)),
    {
        let ghost fv = fields_view(fields@);
        let mut out: Vec<Option<Vec<u8>>> = Vec::new();
        let mut idx: usize = 0;
        while idx < fields.len()
            invariant
                idx <= fields@.len(),
                fv == fields_view(fields@),
                fields_view(out@) =~= masked_row(self.strategy, no_mask@, fv).take(idx as int),
            decreases fields@.len() - idx,
        {
            let keep = contains_index(no_mask, idx);
            let f: Option<Vec<u8>> = match &fields[idx] {
                Some(b) => if keep {
                    Some(copy_range(b.as_slice(), 0, b.len()))
                } else {
                    Some(self.strategy.mask(b.as_slice()))
                },
                None => None,
            };
            proof {
                if let Some(b) = fields@[idx as int] {
                    assert(b@.subrange(0, b@.len() as int) =~= b@);
                }
                assert(fv[idx as int] == opt_view(fields@[idx as int]));
                assert(opt_view(f) == masked_field(self.strategy, keep, fv[idx as int]));
            }
            let ghost before = fields_view(out@);
            out.push(f);
            assert(fields_view(out@) =~= before.push(opt_view(f)));
            idx = idx + 1;
            assert(fields_view(out@) =~= masked_row(self.strategy, no_mask@, fv).take(idx as int));
        }
        assert(masked_row(self.strategy, no_mask@, fv).take(idx as int) =~= masked_row(self.strategy, no_mask@, fv));
        out
    }
}

/// Whether `v` holds `x`.
fn contains_index(v: &Vec<usize>, x: usize) -> (r: bool)
    ensures
        r == v@.contains(x),
{
    let mut i: usize = 0;
    while i < v.len()
        invariant
            i <= v@.len(),
            forall|k: int| 0 <= k < i ==> v@[k] != x,
        decreases v@.len() - i,
    {
        if v[i] == x {
            return true;
        }
        i = i + 1;
    }
    false
}

} // verus!
