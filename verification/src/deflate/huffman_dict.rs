use vstd::prelude::*;

verus! {

/// A lookup table from (code, length) to symbol, for codes below 32768 and
/// lengths below 16, with room for every such pair.
pub struct HuffmanDict(Vec<Option<u16>>);

impl View for HuffmanDict {
    type V = Map<(u16, u16), u16>;

    /// The table as a map from (code, length) to symbol.
    open spec fn view(&self) -> Map<(u16, u16), u16> {
        Map::new(
            |k: (u16, u16)| k.0 < 32768 && k.1 < 16 && self.spec_get(k.0 as int, k.1 as int) is Some,
            |k: (u16, u16)| self.spec_get(k.0 as int, k.1 as int)->0,
        )
    }
}

impl HuffmanDict {
    /// What the table holds for `code` and `length`.
    pub closed spec fn spec_get(&self, code: int, length: int) -> Option<u16> {
        self.0@[code * 16 + length]
    }

    /// The table has its room for every pair.
    pub closed spec fn wf(&self) -> bool {
        self.0@.len() == 32768 * 16
    }

    /// An empty table.
    pub fn new() -> (dict: Self)
        ensures
            dict.wf(),
            forall|code: int, length: int|
                0 <= code < 32768 && 0 <= length < 16 ==> #[trigger] dict.spec_get(code, length) is None,
            dict@ == Map::<(u16, u16), u16>::empty(),
    {
        let mut entries: Vec<Option<u16>> = Vec::new();
        let mut i: usize = 0;
        while i < 32768 * 16
            invariant
                i <= 32768 * 16,
                entries@.len() == i,
                forall|k: int| 0 <= k < i ==> entries@[k] is None,
            decreases 32768 * 16 - i,
        {
            entries.push(None);
            i += 1;
        }
        let dict = Self(entries);
        assert forall|code: int, length: int| 0 <= code < 32768 && 0 <= length < 16 implies #[trigger] dict.spec_get(code, length) is None by {
            assert(0 <= code * 16 + length < 32768 * 16) by (nonlinear_arith)
                requires
                    0 <= code < 32768,
                    0 <= length < 16,
            ;
        }
        assert(dict@ =~= Map::<(u16, u16), u16>::empty());
        dict
    }

    /// Stores `value` for `code` and `length`; every other entry stays.
    pub fn insert(&mut self, code: u16, length: u16, value: u16)
        requires
            old(self).wf(),
            code < 32768,
            length < 16,
        ensures
            final(self).wf(),
            final(self).spec_get(code as int, length as int) == Some(value),
            forall|c: int, l: int|
                0 <= c < 32768 && 0 <= l < 16 && (c != code || l != length) ==> #[trigger] final(self).spec_get(c, l)
                    == old(self).spec_get(c, l),
            final(self)@ == old(self)@.insert((code, length), value),
    {
        let index = code as usize * 16 + length as usize;
        self.0.set(index, Some(value));
        assert forall|c: int, l: int|
            0 <= c < 32768 && 0 <= l < 16 && (c != code || l != length) implies #[trigger] self.spec_get(c, l)
                == old(self).spec_get(c, l) by {
            assert(c * 16 + l != code * 16 + length) by (nonlinear_arith)
                requires
                    0 <= c < 32768,
                    0 <= l < 16,
                    0 <= code < 32768,
                    0 <= length < 16,
                    c != code || l != length,
            ;
            assert(0 <= c * 16 + l < 32768 * 16) by (nonlinear_arith)
                requires
                    0 <= c < 32768,
                    0 <= l < 16,
            ;
        }
        assert(self@ =~= old(self)@.insert((code, length), value)) by {
            assert forall|k: (u16, u16)| k.0 < 32768 && k.1 < 16 && (k.0 != code || k.1 != length) implies self.spec_get(
                k.0 as int,
                k.1 as int,
            ) == old(self).spec_get(k.0 as int, k.1 as int) by {}
        }
    }

    /// What the table holds for `code` and `length`.
    pub fn get(&self, code: u16, length: u16) -> (value: Option<u16>)
        requires
            self.wf(),
            code < 32768,
            length < 16,
        ensures
            value == self.spec_get(code as int, length as int),
            value == (if self@.contains_key((code, length)) {
                Some(self@[(code, length)])
            } else {
                None::<u16>
            }),
    {
        self.0[code as usize * 16 + length as usize]
    }
}

/// The table that a sequence of inserts, each (code, length, value), makes
/// from the empty one.
pub open spec fn apply_inserts(ops: Seq<(u16, u16, u16)>) -> Map<(u16, u16), u16>
    decreases ops.len(),
{
    if ops.len() == 0 {
        Map::empty()
    } else {
        apply_inserts(ops.drop_last()).insert((ops.last().0, ops.last().1), ops.last().2)
    }
}

/// The value of the last insert of `ops` at `key`, if any.
pub open spec fn last_insert(ops: Seq<(u16, u16, u16)>, key: (u16, u16)) -> Option<u16>
    decreases ops.len(),
{
    if ops.len() == 0 {
        None
    } else if (ops.last().0, ops.last().1) == key {
        Some(ops.last().2)
    } else {
        last_insert(ops.drop_last(), key)
    }
}

/// A table built by `new` and a sequence of inserts reads, at every key, the
/// value of the last insert at that key, and nothing where there was none.
pub proof fn lemma_get_after_inserts(dict: HuffmanDict, ops: Seq<(u16, u16, u16)>, key: (u16, u16))
    requires
        dict@ == apply_inserts(ops),
    ensures
        (if dict@.contains_key(key) {
            Some(dict@[key])
        } else {
            None::<u16>
        }) == last_insert(ops, key),
{
    lemma_apply_inserts_lookup(ops, key);
}

proof fn lemma_apply_inserts_lookup(ops: Seq<(u16, u16, u16)>, key: (u16, u16))
    ensures
        (if apply_inserts(ops).contains_key(key) {
            Some(apply_inserts(ops)[key])
        } else {
            None::<u16>
        }) == last_insert(ops, key),
    decreases ops.len(),
{
    if ops.len() > 0 {
        lemma_apply_inserts_lookup(ops.drop_last(), key);
    }
}

} // verus!
