use vstd::prelude::*;
use crate::model::WordDef;
use crate::word::Word;

verus! {

/// The word table held as a list of words: a later entry shadows an earlier
/// one of the same name.
pub open spec fn table_view(ws: Seq<Word>) -> Map<Seq<char>, WordDef>
    decreases ws.len(),
{
    if ws.len() == 0 {
        Map::empty()
    } else {
        table_view(ws.drop_last()).insert(ws.last().name@, ws.last().def())
    }
}

/// The last entry with a name is the one the table holds for it.
pub proof fn lemma_table_found(ws: Seq<Word>, k: int, n: Seq<char>)
    requires
        0 <= k < ws.len(),
        ws[k].name@ == n,
        forall|j: int| k < j < ws.len() ==> (#[trigger] ws[j]).name@ != n,
    ensures
        table_view(ws).contains_key(n),
        table_view(ws)[n] == ws[k].def(),
    decreases ws.len(),
{
    if k < ws.len() - 1 {
        let d = ws.drop_last();
        assert forall|j: int| k < j < d.len() implies (#[trigger] d[j]).name@ != n by {
            assert(d[j] == ws[j]);
        }
        lemma_table_found(d, k, n);
        assert(ws.last() == ws[ws.len() - 1]);
    }
}

/// A name that no entry carries is not in the table.
pub proof fn lemma_table_absent(ws: Seq<Word>, n: Seq<char>)
    requires
        forall|j: int| 0 <= j < ws.len() ==> (#[trigger] ws[j]).name@ != n,
    ensures
        !table_view(ws).contains_key(n),
    decreases ws.len(),
{
    if ws.len() > 0 {
        let d = ws.drop_last();
        assert forall|j: int| 0 <= j < d.len() implies (#[trigger] d[j]).name@ != n by {
            assert(d[j] == ws[j]);
        }
        lemma_table_absent(d, n);
        assert(ws.last() == ws[ws.len() - 1]);
    }
}

/// Overwriting the last entry of a name redefines that name and nothing else.
pub proof fn lemma_table_replace(ws: Seq<Word>, k: int, w: Word)
    requires
        0 <= k < ws.len(),
        ws[k].name@ == w.name@,
        forall|j: int| k < j < ws.len() ==> (#[trigger] ws[j]).name@ != w.name@,
    ensures
        table_view(ws.update(k, w)) == table_view(ws).insert(w.name@, w.def()),
    decreases ws.len(),
{
    let u = ws.update(k, w);
    let d = ws.drop_last();
    if k == ws.len() - 1 {
        assert(u.drop_last() =~= d);
        assert(table_view(u) =~= table_view(ws).insert(w.name@, w.def()));
    } else {
        assert forall|j: int| k < j < d.len() implies (#[trigger] d[j]).name@ != w.name@ by {
            assert(d[j] == ws[j]);
        }
        lemma_table_replace(d, k, w);
        assert(u.drop_last() =~= d.update(k, w));
        assert(u.last() == ws.last());
        assert(ws.last() == ws[ws.len() - 1]);
        assert(table_view(u) =~= table_view(ws).insert(w.name@, w.def()));
    }
}

} // verus!
