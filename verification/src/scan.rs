//! The flat index scanner: an early, level-by-level lookup that walks a
//! path index by id prefix, kept behind a small interface so that other
//! level providers can be plugged in.

use vstd::prelude::*;

use crate::query::Query;
use crate::trie::{is_prefix_of, Error};

verus! {

/// Character-wise string equality.
#[verifier::loop_isolation(false)]
pub fn str_eq(a: &str, b: &str) -> (r: bool)
    ensures
        r == (a@ == b@),
{
    let an = a.unicode_len();
    let bn = b.unicode_len();
    if an != bn {
        return false;
    }
    let mut i: usize = 0;
    while i < an
        invariant
            i <= an,
            an == a@.len() && an == b@.len(),
            forall|j: int| 0 <= j < i ==> a@[j] == b@[j],
        decreases an - i,
    {
        if a.get_char(i) != b.get_char(i) {
            return false;
        }
        i = i + 1;
    }
    proof {
        assert(a@ =~= b@);
    }
    true
}

/// Does `s` start with `p`?
#[verifier::loop_isolation(false)]
pub fn str_starts_with(s: &str, p: &str) -> (r: bool)
    ensures
        r == is_prefix_of(p@, s@),
{
    let sn = s.unicode_len();
    let pn = p.unicode_len();
    if pn > sn {
        return false;
    }
    let mut i: usize = 0;
    while i < pn
        invariant
            i <= pn,
            pn == p@.len() && sn == s@.len() && pn <= sn,
            forall|j: int| 0 <= j < i ==> s@[j] == p@[j],
        decreases pn - i,
    {
        if s.get_char(i) != p.get_char(i) {
            proof {
                if is_prefix_of(p@, s@) {
                    assert(s@.take(p@.len() as int)[i as int] == p@[i as int]);
                }
            }
            return false;
        }
        i = i + 1;
    }
    proof {
        assert(s@.take(p@.len() as int) =~= p@);
    }
    true
}

/// What one level of a scan yields: a branch to descend into, or the
/// stored path of an article.
pub enum Entry {
    Branch(String),
    Article(String),
}

/// The mathematical content of a scan entry.
pub ghost enum EntryModel {
    Branch(Seq<char>),
    Article(Seq<char>),
}

impl View for Entry {
    type V = EntryModel;

    open spec fn view(&self) -> EntryModel {
        match self {
            Entry::Branch(b) => EntryModel::Branch(b@),
            Entry::Article(p) => EntryModel::Article(p@),
        }
    }
}

/// The length of a query's id, the scanner's descent measure.
pub open spec fn id_len(q: &Query) -> nat {
    match q.id {
        Some(s) => s@.len(),
        None => 0,
    }
}

/// One level of a scannable index, with a model of what it yields:
/// `level_matches` is the sequence of matches a level reports for an id,
/// `sub_index` the index behind a branch. `find_matches` must return
/// exactly the modeled matches, every branch a non-empty prefix of the
/// id (so that descending consumes part of it), and may fail only with
/// an I/O error; neither call may change the index observably.
pub trait Index: Sized {
    /// The matches this level yields for an id. The default model is
    /// empty; a level provider overrides it with what it really yields,
    /// and `find_matches`'s contract holds it to that model.
    open spec fn level_matches(&self, id: Seq<char>) -> Seq<EntryModel> {
        Seq::empty()
    }

    /// The sub-index behind a branch entry. The default model is the
    /// level itself; a provider overrides it with the real descent.
    open spec fn sub_index(&self, branch: Seq<char>) -> Self {
        *self
    }

    /// Does this level fail to answer for an id? The default model never
    /// fails; a provider whose storage can fail overrides it, and
    /// `find_matches` errs exactly when it holds.
    open spec fn fails(&self, id: Seq<char>) -> bool {
        false
    }

    fn from(&self, entry: &Entry) -> (r: Self)
        ensures
            entry@ matches EntryModel::Branch(b) ==> r == self.sub_index(b),
    ;

    fn find_matches(&mut self, query: &Query) -> (r: Result<Vec<Entry>, Error>)
        ensures
            *final(self) == *old(self),
            query@.id matches Some(idv) ==> (r is Err <==> old(self).fails(idv)),
            r matches Err(e) ==> e == Error::IOError,
            r matches Ok(es) ==> (query@.id matches Some(idv) ==> es@.map_values(
                |x: Entry| x@,
            ) == old(self).level_matches(idv)),
            r matches Ok(es) ==> forall|i: int|
                0 <= i < es@.len() ==> ((#[trigger] es@[i]) matches Entry::Branch(b)
                    ==> query@.id matches Some(idv) && 0 < b@.len() <= idv.len() && idv.take(
                    b@.len() as int,
                ) == b@),
    ;
}

/// The paths a scan collects from entry `t` on at one level: an article
/// entry contributes its path, a branch entry the collection of its
/// sub-index under the id's unconsumed remainder (an ill-formed branch,
/// which `find_matches` never yields, contributes nothing).
pub open spec fn scan_from<I: Index>(
    ix: I,
    id: Seq<char>,
    ms: Seq<EntryModel>,
    t: int,
) -> Seq<Seq<char>>
    decreases id.len(), ms.len() - t,
{
    if t < 0 || t >= ms.len() {
        Seq::empty()
    } else {
        (match ms[t] {
            EntryModel::Article(p) => seq![p],
            EntryModel::Branch(b) => if 0 < b.len() <= id.len() {
                scan_from(
                    ix.sub_index(b),
                    id.skip(b.len() as int),
                    ix.sub_index(b).level_matches(id.skip(b.len() as int)),
                    0,
                )
            } else {
                Seq::empty()
            },
        }) + scan_from(ix, id, ms, t + 1)
    }
}

/// All article paths a scan of `ix` collects for `id`.
pub open spec fn scan_matches<I: Index>(ix: I, id: Seq<char>) -> Seq<Seq<char>> {
    scan_from(ix, id, ix.level_matches(id), 0)
}

/// Whether some level at or below entry `t` fails the walk for `id`.
pub open spec fn scan_fails_from<I: Index>(
    ix: I,
    id: Seq<char>,
    ms: Seq<EntryModel>,
    t: int,
) -> bool
    decreases id.len(), ms.len() - t,
{
    if t < 0 || t >= ms.len() {
        false
    } else {
        (match ms[t] {
            EntryModel::Article(p) => false,
            EntryModel::Branch(b) => if 0 < b.len() <= id.len() {
                ix.sub_index(b).fails(id.skip(b.len() as int)) || scan_fails_from(
                    ix.sub_index(b),
                    id.skip(b.len() as int),
                    ix.sub_index(b).level_matches(id.skip(b.len() as int)),
                    0,
                )
            } else {
                false
            },
        }) || scan_fails_from(ix, id, ms, t + 1)
    }
}

/// Does a scan of `ix` for `id` fail at some level along its walk?
pub open spec fn scan_fails<I: Index>(ix: I, id: Seq<char>) -> bool {
    ix.fails(id) || scan_fails_from(ix, id, ix.level_matches(id), 0)
}

/// Walks the index and collects exactly the article paths its model
/// yields for the query's id, descending into each branch with the
/// unconsumed remainder of the id. A query without an id matches nothing
/// and leaves the index untouched; the only possible error is an I/O
/// error from a level.
#[verifier::loop_isolation(false)]
pub fn scan_articles<I: Index>(query: &Query, index: &mut I) -> (r: Result<Vec<String>, Error>)
    ensures
        *final(index) == *old(index),
        query@.id is None ==> (r matches Ok(v) && v@.len() == 0),
        r matches Err(e) ==> e == Error::IOError,
        query@.id matches Some(idv) ==> (r is Err <==> scan_fails(*old(index), idv)),
        query@.id matches Some(idv) ==> (r matches Ok(v) ==> v@.map_values(|x: String| x@)
            == scan_matches(*old(index), idv)),
    decreases id_len(query),
{
    let mut found: Vec<String> = Vec::new();
    if let Some(id) = &query.id {
        let ghost ix0 = *index;
        let entries = match index.find_matches(query) {
            Ok(es) => es,
            Err(e) => {
                return Err(e);
            },
        };
        let ghost models = ix0.level_matches(id@);
        proof {
            assert(!ix0.fails(id@));
            assert(entries@.map_values(|x: Entry| x@) == models);
            assert(found@.map_values(|x: String| x@) + scan_from(ix0, id@, models, 0)
                =~= scan_matches(ix0, id@));
        }
        let mut i: usize = 0;
        while i < entries.len()
            invariant
                i <= entries@.len(),
                *index == ix0,
                !ix0.fails(id@),
                entries@.len() == models.len(),
                found@.map_values(|x: String| x@) + scan_from(ix0, id@, models, i as int)
                    == scan_matches(ix0, id@),
                scan_fails_from(ix0, id@, models, 0) == scan_fails_from(
                    ix0,
                    id@,
                    models,
                    i as int,
                ),
            decreases entries@.len() - i,
        {
            let ghost m = models[i as int];
            proof {
                assert(entries@.map_values(|x: Entry| x@)[i as int] == m);
                assert(entries@[i as int]@ == m);
            }
            match &entries[i] {
                Entry::Article(path) => {
                    let ghost before = found@;
                    found.push(path.clone());
                    proof {
                        assert(m == EntryModel::Article(path@));
                        assert(scan_fails_from(ix0, id@, models, i as int) == scan_fails_from(
                            ix0,
                            id@,
                            models,
                            i as int + 1,
                        ));
                        assert(found@.map_values(|x: String| x@) =~= before.map_values(
                            |x: String| x@,
                        ).push(path@));
                        assert(scan_from(ix0, id@, models, i as int) == seq![path@]
                            + scan_from(ix0, id@, models, i as int + 1));
                        assert(found@.map_values(|x: String| x@) + scan_from(
                            ix0,
                            id@,
                            models,
                            i as int + 1,
                        ) =~= before.map_values(|x: String| x@) + scan_from(
                            ix0,
                            id@,
                            models,
                            i as int,
                        ));
                    }
                },
                Entry::Branch(branch) => {
                    proof {
                        assert(entries@[i as int] matches Entry::Branch(b) && 0 < b@.len()
                            <= id@.len() && id@.take(b@.len() as int) == b@);
                        assert(m == EntryModel::Branch(branch@));
                    }
                    let blen = branch.as_str().unicode_len();
                    let idlen = id.as_str().unicode_len();
                    let new_id = String::from_str(id.as_str().substring_char(blen, idlen));
                    let new_query = Query {
                        id: Some(new_id),
                        properties: Vec::new(),
                        tags: Vec::new(),
                    };
                    let mut sub = index.from(&entries[i]);
                    proof {
                        assert(sub == ix0.sub_index(branch@));
                        assert(id_len(&new_query) < id_len(query));
                        assert(new_query@.id matches Some(nid) && nid == id@.skip(
                            blen as int,
                        ));
                    }
                    match scan_articles(&new_query, &mut sub) {
                        Ok(mut subr) => {
                            let ghost before = found@;
                            let ghost subv = subr@;
                            found.append(&mut subr);
                            proof {
                                assert(!scan_fails(
                                    ix0.sub_index(branch@),
                                    id@.skip(blen as int),
                                ));
                                assert(scan_fails_from(ix0, id@, models, i as int)
                                    == scan_fails_from(ix0, id@, models, i as int + 1));
                                assert(subv.map_values(|x: String| x@) == scan_matches(
                                    ix0.sub_index(branch@),
                                    id@.skip(blen as int),
                                ));
                                assert(found@ =~= before + subv);
                                assert(found@.map_values(|x: String| x@)
                                    =~= before.map_values(|x: String| x@) + subv.map_values(
                                    |x: String| x@,
                                ));
                                assert(scan_from(ix0, id@, models, i as int) == scan_matches(
                                    ix0.sub_index(branch@),
                                    id@.skip(blen as int),
                                ) + scan_from(ix0, id@, models, i as int + 1));
                                assert(found@.map_values(|x: String| x@) + scan_from(
                                    ix0,
                                    id@,
                                    models,
                                    i as int + 1,
                                ) =~= before.map_values(|x: String| x@) + scan_from(
                                    ix0,
                                    id@,
                                    models,
                                    i as int,
                                ));
                            }
                        },
                        Err(e) => {
                            proof {
                                assert(scan_fails(
                                    ix0.sub_index(branch@),
                                    id@.skip(blen as int),
                                ));
                                assert(scan_fails_from(ix0, id@, models, i as int));
                                assert(scan_fails(ix0, id@));
                            }
                            return Err(e);
                        },
                    }
                },
            }
            i = i + 1;
        }
        proof {
            assert(scan_from(ix0, id@, models, entries@.len() as int).len() == 0);
            assert(!scan_fails_from(ix0, id@, models, entries@.len() as int));
            assert(!scan_fails(ix0, id@));
            assert(found@.map_values(|x: String| x@) =~= scan_matches(ix0, id@));
        }
        Ok(found)
    } else {
        Ok(found)
    }
}

/// What the flat-index insertion does at one directory level, given the
/// directory names in read order and the unconsumed id segment.
pub enum IndexStep {
    /// A directory named exactly like the segment exists at this
    /// position: a duplicate insertion, which the caller must fail as a
    /// conflict rather than overwrite.
    Exists(usize),
    /// Descend into the directory at this position with the remainder.
    Descend(usize, String),
    /// Create a fresh directory named after the whole segment.
    Create,
}

/// The mathematical content of an `IndexStep`.
pub ghost enum StepModel {
    Exists(int),
    Descend(int, Seq<char>),
    Create,
}

/// The position of the first name equal to the segment, scanning from
/// `i` (the list length when there is none).
pub open spec fn first_exact(names: Seq<Seq<char>>, seg: Seq<char>, i: int) -> int
    decreases names.len() - i,
{
    if i < 0 || i >= names.len() {
        names.len() as int
    } else if names[i] == seg {
        i
    } else {
        first_exact(names, seg, i + 1)
    }
}

/// The position of the first name that is a non-empty proper prefix of
/// the segment, scanning from `i` (the list length when there is none).
pub open spec fn first_prefix(names: Seq<Seq<char>>, seg: Seq<char>, i: int) -> int
    decreases names.len() - i,
{
    if i < 0 || i >= names.len() {
        names.len() as int
    } else if 0 < names[i].len() < seg.len() && is_prefix_of(names[i], seg) {
        i
    } else {
        first_prefix(names, seg, i + 1)
    }
}

/// The decision at one level, over the whole level's names: a directory
/// named exactly like the segment, wherever it stands, is a duplicate
/// and must fail as a conflict; otherwise the first name that is a
/// proper prefix of the segment is descended into with the remainder;
/// otherwise a fresh directory is created. A name that merely extends
/// the segment (a collision) never decides.
pub open spec fn step_spec(names: Seq<Seq<char>>, seg: Seq<char>) -> StepModel {
    if first_exact(names, seg, 0) < names.len() {
        StepModel::Exists(first_exact(names, seg, 0))
    } else if first_prefix(names, seg, 0) < names.len() {
        StepModel::Descend(
            first_prefix(names, seg, 0),
            seg.skip(names[first_prefix(names, seg, 0)].len() as int),
        )
    } else {
        StepModel::Create
    }
}

/// A scan that saw no exact match up to `j` pins `first_exact`.
proof fn lemma_first_exact_is(names: Seq<Seq<char>>, seg: Seq<char>, i: int, j: int)
    requires
        0 <= i <= j <= names.len(),
        forall|x: int| i <= x < j ==> (#[trigger] names[x]) != seg,
        j == names.len() || names[j] == seg,
    ensures
        first_exact(names, seg, i) == j,
    decreases j - i,
{
    if i < j {
        lemma_first_exact_is(names, seg, i + 1, j);
    }
}

/// A scan that saw no proper-prefix name up to `j` pins `first_prefix`.
proof fn lemma_first_prefix_is(names: Seq<Seq<char>>, seg: Seq<char>, i: int, j: int)
    requires
        0 <= i <= j <= names.len(),
        forall|x: int|
            i <= x < j ==> !(0 < (#[trigger] names[x]).len() < seg.len() && is_prefix_of(
                names[x],
                seg,
            )),
        j == names.len() || (0 < names[j].len() < seg.len() && is_prefix_of(names[j], seg)),
    ensures
        first_prefix(names, seg, i) == j,
    decreases j - i,
{
    if i < j {
        lemma_first_prefix_is(names, seg, i + 1, j);
    }
}

/// Decides one level of the flat-index insertion, scanning the whole
/// level: an exact match anywhere is reported as existing, before any
/// create decision.
#[verifier::loop_isolation(false)]
pub fn update_index_step(names: &Vec<String>, segment: &str) -> (r: IndexStep)
    ensures
        ({
            let m = step_spec(names@.map_values(|s: String| s@), segment@);
            match r {
                IndexStep::Exists(i) => m == StepModel::Exists(i as int),
                IndexStep::Descend(i, rest) => m == StepModel::Descend(i as int, rest@),
                IndexStep::Create => m == StepModel::Create,
            }
        }),
{
    let ghost nv = names@.map_values(|s: String| s@);
    let mut i: usize = 0;
    while i < names.len()
        invariant
            i <= names@.len(),
            nv == names@.map_values(|s: String| s@),
            forall|j: int| 0 <= j < i ==> (#[trigger] nv[j]) != segment@,
        decreases names@.len() - i,
    {
        proof {
            assert(nv[i as int] == names@[i as int]@);
        }
        if str_eq(names[i].as_str(), segment) {
            proof {
                lemma_first_exact_is(nv, segment@, 0, i as int);
            }
            return IndexStep::Exists(i);
        }
        i = i + 1;
    }
    proof {
        lemma_first_exact_is(nv, segment@, 0, nv.len() as int);
    }
    let slen = segment.unicode_len();
    let mut p: usize = 0;
    while p < names.len()
        invariant
            p <= names@.len(),
            nv == names@.map_values(|s: String| s@),
            slen == segment@.len(),
            first_exact(nv, segment@, 0) == nv.len(),
            forall|j: int|
                0 <= j < p ==> !(0 < (#[trigger] nv[j]).len() < segment@.len() && is_prefix_of(
                    nv[j],
                    segment@,
                )),
        decreases names@.len() - p,
    {
        proof {
            assert(nv[p as int] == names@[p as int]@);
        }
        let name = &names[p];
        let nlen = name.as_str().unicode_len();
        if nlen > 0 && nlen < slen && str_starts_with(segment, name.as_str()) {
            let rest = String::from_str(segment.substring_char(nlen, slen));
            proof {
                lemma_first_prefix_is(nv, segment@, 0, p as int);
            }
            return IndexStep::Descend(p, rest);
        }
        p = p + 1;
    }
    proof {
        lemma_first_prefix_is(nv, segment@, 0, nv.len() as int);
    }
    IndexStep::Create
}

/// How one directory name of a scan level relates to the id being
/// looked up.
pub enum LevelNameClass {
    /// The name equals the id: this directory holds the entry.
    Hit,
    /// The name is a non-empty proper prefix of the id: descend.
    Branch,
    /// Unrelated (or a mere extension of the id): not a match.
    Skip,
}

/// Classifies one directory name of a level against the id: `Hit` when
/// they are equal, `Branch` when the name is a non-empty proper prefix
/// of the id, `Skip` otherwise.
pub fn classify_level_name(name: &str, id: &str) -> (r: LevelNameClass)
    ensures
        match r {
            LevelNameClass::Hit => name@ == id@,
            LevelNameClass::Branch => 0 < name@.len() < id@.len() && is_prefix_of(name@, id@),
            LevelNameClass::Skip => name@ != id@ && !(0 < name@.len() < id@.len()
                && is_prefix_of(name@, id@)),
        },
{
    if str_eq(name, id) {
        LevelNameClass::Hit
    } else {
        let nlen = name.unicode_len();
        let ilen = id.unicode_len();
        if nlen > 0 && nlen < ilen && str_starts_with(id, name) {
            LevelNameClass::Branch
        } else {
            LevelNameClass::Skip
        }
    }
}

/// The last path that a scan of the index collects for the query;
/// `NotFound` exactly when the scan succeeds and collects nothing
/// (including every query without an id), and an I/O error exactly when
/// some level along the walk fails.
pub fn find_first_matching_path<I: Index>(query: &Query, index: &mut I) -> (r: Result<
    String,
    Error,
>)
    ensures
        *final(index) == *old(index),
        query@.id is None ==> r == Err::<String, Error>(Error::NotFound),
        r matches Err(e) ==> e == Error::NotFound || e == Error::IOError,
        query@.id matches Some(idv) ==> {
            &&& (r matches Ok(p) ==> !scan_fails(*old(index), idv) && scan_matches(
                *old(index),
                idv,
            ).len() > 0 && p@ == scan_matches(*old(index), idv).last())
            &&& ((r == Err::<String, Error>(Error::NotFound)) <==> (!scan_fails(
                *old(index),
                idv,
            ) && scan_matches(*old(index), idv).len() == 0))
            &&& ((r == Err::<String, Error>(Error::IOError)) <==> scan_fails(
                *old(index),
                idv,
            ))
        },
{
    match scan_articles(query, index) {
        Ok(mut scanned) => {
            let ghost sv = scanned@;
            match scanned.pop() {
                Some(p) => {
                    proof {
                        if query@.id matches Some(idv) {
                            assert(sv.map_values(|x: String| x@).last() == p@);
                        }
                    }
                    Ok(p)
                },
                None => Err(Error::NotFound),
            }
        },
        Err(e) => Err(e),
    }
}

} // verus!
