//! Records: compounds built from named fields, some of which may be absent.

use crate::grammar::has_key;
use crate::value::{entry_trees_of, lemma_entry_trees_of_push, Tree, Value};
use vstd::prelude::*;

verus! {

/// The entries that a record's fields give: one per present field, in order;
/// an absent field gives none.
pub open spec fn present_fields(fields: Seq<(String, Option<Value>)>) -> Seq<(Seq<char>, Tree)>
    decreases fields.len(),
{
    if fields.len() == 0 {
        seq![]
    } else {
        let rest = present_fields(fields.drop_first());
        match fields[0].1 {
            Some(v) => seq![(fields[0].0@, v@)] + rest,
            None => rest,
        }
    }
}

/// Builds the compound of a record from its fields in declared order; an
/// absent optional field is left out, so its key is never written.
pub fn record_compound(fields: Vec<(String, Option<Value>)>) -> (r: Value)
    ensures
        r is Compound,
        entry_trees_of(r->Compound_0@) == present_fields(fields@),
{
    let ghost old_fields = fields;
    let mut fields = fields;
    let mut out: Vec<(String, Value)> = Vec::new();
    assert(entry_trees_of(out@) =~= Seq::<(Seq<char>, Tree)>::empty());
    while fields.len() > 0
        invariant
            entry_trees_of(out@) + present_fields(fields@) == present_fields(old_fields@),
        decreases fields@.len(),
    {
        let ghost before = fields@;
        let (key, value) = fields.remove(0);
        assert(before.drop_first() =~= fields@);
        match value {
            Some(v) => {
                proof {
                    lemma_entry_trees_of_push(out@, (key, v));
                }
                let ghost prev = entry_trees_of(out@);
                out.push((key, v));
                assert(prev.push((key@, v@)) + present_fields(fields@) =~= prev + (seq![
                    (key@, v@),
                ] + present_fields(fields@)));
            },
            None => {},
        }
    }
    assert(present_fields(fields@) =~= Seq::<(Seq<char>, Tree)>::empty());
    assert(entry_trees_of(out@) + present_fields(fields@) =~= entry_trees_of(out@));
    Value::Compound(out)
}

/// Optional omission: a key whose fields are all absent has no entry in the
/// record's compound.
pub proof fn lemma_absent_field_omitted(fields: Seq<(String, Option<Value>)>, key: Seq<char>)
    requires
        forall|i: int| 0 <= i < fields.len() && fields[i].0@ == key ==> fields[i].1 is None,
    ensures
        !has_key(present_fields(fields), key),
    decreases fields.len(),
{
    if fields.len() > 0 {
        let tail = fields.drop_first();
        assert forall|i: int| 0 <= i < tail.len() && tail[i].0@ == key implies tail[i].1 is None by {
            assert(tail[i] == fields[i + 1]);
        }
        lemma_absent_field_omitted(tail, key);
        let rest = present_fields(tail);
        match fields[0].1 {
            Some(v) => {
                let es = seq![(fields[0].0@, v@)] + rest;
                if has_key(es, key) {
                    let i = choose|i: int| 0 <= i < es.len() && es[i].0 == key;
                    if i > 0 {
                        assert(es[i] == rest[i - 1]);
                    }
                }
            },
            None => {},
        }
    }
}

} // verus!
