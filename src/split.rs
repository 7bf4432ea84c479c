use vstd::prelude::*;

verus! {

/// The field delimiter, `,`.
pub const COMMA: u8 = 44;

/// The fields of `b`: each `,` ends a field and opens the next one; every other
/// byte belongs to the field that is open. There is no quoting or escaping, so
/// `n` commas always give `n + 1` fields, some of which may be empty.
pub open spec fn split_fields(b: Seq<u8>) -> Seq<Seq<u8>>
    decreases b.len(),
{
    if b.len() == 0 {
        seq![Seq::empty()]
    } else {
        let fs = split_fields(b.drop_last());
        if b.last() == COMMA {
            fs.push(Seq::empty())
        } else {
            fs.update(fs.len() - 1, fs.last().push(b.last()))
        }
    }
}

/// There is always at least one field.
pub proof fn lemma_split_nonempty(b: Seq<u8>)
    ensures
        split_fields(b).len() >= 1,
    decreases b.len(),
{
    if b.len() > 0 {
        lemma_split_nonempty(b.drop_last());
    }
}

/// The fields of two pieces joined by a comma are the fields of the first
/// piece followed by those of the second.
pub proof fn lemma_split_concat(a: Seq<u8>, e: Seq<u8>)
    ensures
        split_fields(a + seq![COMMA] + e) == split_fields(a) + split_fields(e),
    decreases e.len(),
{
    if e.len() == 0 {
        assert((a + seq![COMMA] + e).drop_last() =~= a);
        assert(a + seq![COMMA] + e =~= a.push(COMMA));
        assert(split_fields(a).push(Seq::empty()) =~= split_fields(a) + split_fields(e));
    } else {
        let e1 = e.drop_last();
        lemma_split_concat(a, e1);
        lemma_split_nonempty(e1);
        lemma_split_nonempty(a);
        assert((a + seq![COMMA] + e).drop_last() =~= a + seq![COMMA] + e1);
        let fa = split_fields(a);
        let fe1 = split_fields(e1);
        if e.last() == COMMA {
            assert(fa + fe1.push(Seq::empty()) =~= (fa + fe1).push(Seq::empty()));
        } else {
            let c = e.last();
            assert(fa + fe1.update(fe1.len() - 1, fe1.last().push(c)) =~= (fa + fe1).update(
                (fa + fe1).len() - 1,
                (fa + fe1).last().push(c),
            ));
        }
    }
}

/// Splits `b` into its fields (see `split_fields`).
pub fn split(b: &[u8]) -> (r: Vec<Vec<u8>>)
    ensures
        r@.map_values(|f: Vec<u8>| f@) == split_fields(b@),
{
    let mut done: Vec<Vec<u8>> = Vec::new();
    let mut cur: Vec<u8> = Vec::new();
    let mut i: usize = 0;
    while i < b.len()
        invariant
            0 <= i <= b@.len(),
            done@.map_values(|f: Vec<u8>| f@).push(cur@) == split_fields(b@.take(i as int)),
        decreases b@.len() - i,
    {
        let c = b[i];
        let ghost before = done@.map_values(|f: Vec<u8>| f@);
        assert(b@.take(i + 1).drop_last() =~= b@.take(i as int));
        if c == COMMA {
            let finished = cur;
            cur = Vec::new();
            done.push(finished);
            assert(done@.map_values(|f: Vec<u8>| f@) =~= before.push(finished@));
        } else {
            cur.push(c);
            assert(done@.map_values(|f: Vec<u8>| f@) =~= before);
        }
        assert(done@.map_values(|f: Vec<u8>| f@).push(cur@) =~= split_fields(
            b@.take(i + 1),
        ));
        i = i + 1;
    }
    assert(b@.take(i as int) =~= b@);
    done.push(cur);
    done
}

} // verus!
