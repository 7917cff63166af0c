use vstd::prelude::*;
use crate::dump_file::Collection;
use crate::dump_file::Database;
use crate::dump_file::Document;
use crate::dump_file::DumpFile;
use crate::text::lemma_take_succ;

verus! {

/// A page fetch against the remote service failed; carries the reported cause.
#[derive(Debug)]
pub struct FetchError {
    pub message: String,
}

pub open spec fn doc_pages_ok(pages: Seq<Result<Vec<Document>, FetchError>>) -> bool {
    forall|i: int| 0 <= i < pages.len() ==> pages[i] is Ok
}

/// The documents of a fully enumerated collection: every page's items, in
/// page order.
pub open spec fn concat_docs(pages: Seq<Result<Vec<Document>, FetchError>>) -> Seq<Document>
    decreases pages.len(),
{
    if pages.len() == 0 {
        Seq::empty()
    } else {
        concat_docs(pages.drop_last()) + (match pages.last() {
            Ok(v) => v@,
            Err(_) => Seq::empty(),
        })
    }
}

pub open spec fn first_doc_err(pages: Seq<Result<Vec<Document>, FetchError>>) -> Option<
    FetchError,
>
    decreases pages.len(),
{
    if pages.len() == 0 {
        None
    } else {
        match pages[0] {
            Err(e) => Some(e),
            Ok(_) => first_doc_err(pages.drop_first()),
        }
    }
}

pub open spec fn col_pages_ok(pages: Seq<Result<Vec<Result<Collection, FetchError>>, FetchError>>) -> bool {
    forall|i: int| 0 <= i < pages.len() ==> pages[i] is Ok
}

pub open spec fn oks_of_cols(entries: Seq<Result<Collection, FetchError>>) -> Seq<Collection>
    decreases entries.len(),
{
    if entries.len() == 0 {
        Seq::empty()
    } else {
        oks_of_cols(entries.drop_last()) + (match entries.last() {
            Ok(c) => seq![c],
            Err(_) => Seq::empty(),
        })
    }
}

/// The collections a database keeps: every listed entry that was itself
/// dumped successfully, in listing order; failed entries are left out whole.
pub open spec fn gather_cols(
    pages: Seq<Result<Vec<Result<Collection, FetchError>>, FetchError>>,
) -> Seq<Collection>
    decreases pages.len(),
{
    if pages.len() == 0 {
        Seq::empty()
    } else {
        gather_cols(pages.drop_last()) + (match pages.last() {
            Ok(v) => oks_of_cols(v@),
            Err(_) => Seq::empty(),
        })
    }
}

pub open spec fn first_col_err(
    pages: Seq<Result<Vec<Result<Collection, FetchError>>, FetchError>>,
) -> Option<FetchError>
    decreases pages.len(),
{
    if pages.len() == 0 {
        None
    } else {
        match pages[0] {
            Err(e) => Some(e),
            Ok(_) => first_col_err(pages.drop_first()),
        }
    }
}

pub open spec fn db_pages_ok(pages: Seq<Result<Vec<Result<Database, FetchError>>, FetchError>>) -> bool {
    forall|i: int| 0 <= i < pages.len() ==> pages[i] is Ok
}

pub open spec fn oks_of_dbs(entries: Seq<Result<Database, FetchError>>) -> Seq<Database>
    decreases entries.len(),
{
    if entries.len() == 0 {
        Seq::empty()
    } else {
        oks_of_dbs(entries.drop_last()) + (match entries.last() {
            Ok(d) => seq![d],
            Err(_) => Seq::empty(),
        })
    }
}

/// The databases of a dump: every listed database that was itself dumped
/// successfully, in listing order; failed databases are left out whole.
pub open spec fn gather_dbs(
    pages: Seq<Result<Vec<Result<Database, FetchError>>, FetchError>>,
) -> Seq<Database>
    decreases pages.len(),
{
    if pages.len() == 0 {
        Seq::empty()
    } else {
        gather_dbs(pages.drop_last()) + (match pages.last() {
            Ok(v) => oks_of_dbs(v@),
            Err(_) => Seq::empty(),
        })
    }
}

pub open spec fn first_db_err(
    pages: Seq<Result<Vec<Result<Database, FetchError>>, FetchError>>,
) -> Option<FetchError>
    decreases pages.len(),
{
    if pages.len() == 0 {
        None
    } else {
        match pages[0] {
            Err(e) => Some(e),
            Ok(_) => first_db_err(pages.drop_first()),
        }
    }
}

/// Assemble one collection from its document-listing pages. Every page must
/// have arrived: the first failed page abandons the whole collection and
/// reports why.
pub fn dump_collection(id: &String, pages: Vec<Result<Vec<Document>, FetchError>>) -> (r: Result<
    Collection,
    FetchError,
>)
    ensures
        r is Ok <==> doc_pages_ok(pages@),
        r is Ok ==> r->Ok_0.name == *id && r->Ok_0.documents@ == concat_docs(pages@),
        r is Err ==> Some(r->Err_0) == first_doc_err(pages@),
{
    let ghost orig = pages@;
    let mut pages_in = pages;
    let n0 = pages_in.len();
    proof {
        assert(orig.len() == n0 as int);
        assert(orig.skip(0) =~= orig);
    }
    let mut documents: Vec<Document> = Vec::new();
    let mut i: usize = 0;
    while pages_in.len() > 0
        invariant
            orig == pages@,
            0 <= i <= orig.len(),
            orig.len() <= usize::MAX,
            pages_in@ =~= orig.skip(i as int),
            documents@ =~= concat_docs(orig.take(i as int)),
            doc_pages_ok(orig.take(i as int)),
            first_doc_err(orig) == first_doc_err(orig.skip(i as int)),
        decreases pages_in@.len(),
    {
        let page = pages_in.remove(0);
        proof {
            assert(page == orig[i as int]);
            assert(i < orig.len());
            assert(pages_in@ =~= orig.skip(i + 1));
            lemma_take_succ(orig, i as int);
        }
        match page {
            Ok(mut docs) => {
                proof {
                    assert(orig.skip(i as int)[0] == orig[i as int]);
                    assert(orig.skip(i as int).drop_first() =~= orig.skip(i + 1));
                }
                documents.append(&mut docs);
                proof {
                    assert(documents@ =~= concat_docs(orig.take(i + 1)));
                    assert forall|k: int| 0 <= k < i + 1 implies #[trigger] orig.take(i + 1)[k] is Ok by {
                        if k < i {
                            assert(orig.take(i as int)[k] is Ok);
                        }
                    }
                }
            },
            Err(e) => {
                proof {
                    assert(orig.skip(i as int)[0] == orig[i as int]);
                    assert(first_doc_err(orig) == Some(e));
                    assert(!(orig[i as int] is Ok));
                }
                return Err(e);
            },
        }
        i = i + 1;
    }
    proof {
        assert(orig.take(orig.len() as int) =~= orig);
    }
    Ok(Collection { name: id.clone(), documents })
}

/// Assemble one database from its collection-listing pages, each page holding
/// the per-collection outcomes met while it was current. A failed listing
/// page abandons the whole database; a failed collection entry is skipped.
pub fn dump_database(
    id: &String,
    pages: Vec<Result<Vec<Result<Collection, FetchError>>, FetchError>>,
) -> (r: Result<Database, FetchError>)
    ensures
        r is Ok <==> col_pages_ok(pages@),
        r is Ok ==> r->Ok_0.name == *id && r->Ok_0.collections@ == gather_cols(pages@),
        r is Err ==> Some(r->Err_0) == first_col_err(pages@),
{
    let ghost orig = pages@;
    let mut pages_in = pages;
    let n0 = pages_in.len();
    proof {
        assert(orig.len() == n0 as int);
        assert(orig.skip(0) =~= orig);
    }
    let mut collections: Vec<Collection> = Vec::new();
    let mut i: usize = 0;
    while pages_in.len() > 0
        invariant
            orig == pages@,
            0 <= i <= orig.len(),
            orig.len() <= usize::MAX,
            pages_in@ =~= orig.skip(i as int),
            collections@ =~= gather_cols(orig.take(i as int)),
            col_pages_ok(orig.take(i as int)),
            first_col_err(orig) == first_col_err(orig.skip(i as int)),
        decreases pages_in@.len(),
    {
        let page = pages_in.remove(0);
        proof {
            assert(page == orig[i as int]);
            assert(i < orig.len());
            assert(pages_in@ =~= orig.skip(i + 1));
            lemma_take_succ(orig, i as int);
        }
        match page {
            Ok(entries) => {
                proof {
                    assert(orig.skip(i as int)[0] == orig[i as int]);
                    assert(orig.skip(i as int).drop_first() =~= orig.skip(i + 1));
                }
                let ghost eorig = entries@;
                let mut entries_in = entries;
                let m0 = entries_in.len();
                proof {
                    assert(eorig.len() == m0 as int);
                }
                let mut k: usize = 0;
                while entries_in.len() > 0
                    invariant
                        0 <= k <= eorig.len(),
                        eorig.len() <= usize::MAX,
                        entries_in@ =~= eorig.skip(k as int),
                        collections@ =~= gather_cols(orig.take(i as int)) + oks_of_cols(
                            eorig.take(k as int),
                        ),
                    decreases entries_in@.len(),
                {
                    let entry = entries_in.remove(0);
                    proof {
                        assert(entry == eorig[k as int]);
                        assert(k < eorig.len());
                        assert(entries_in@ =~= eorig.skip(k + 1));
                        lemma_take_succ(eorig, k as int);
                    }
                    match entry {
                        Ok(c) => {
                            collections.push(c);
                        },
                        Err(_) => {},
                    }
                    k = k + 1;
                }
                proof {
                    assert(eorig.take(eorig.len() as int) =~= eorig);
                    assert(collections@ =~= gather_cols(orig.take(i + 1)));
                    assert forall|q: int| 0 <= q < i + 1 implies #[trigger] orig.take(i + 1)[q] is Ok by {
                        if q < i {
                            assert(orig.take(i as int)[q] is Ok);
                        }
                    }
                }
            },
            Err(e) => {
                proof {
                    assert(orig.skip(i as int)[0] == orig[i as int]);
                    assert(first_col_err(orig) == Some(e));
                    assert(!(orig[i as int] is Ok));
                }
                return Err(e);
            },
        }
        i = i + 1;
    }
    proof {
        assert(orig.take(orig.len() as int) =~= orig);
    }
    Ok(Database { name: id.clone(), collections })
}

/// Assemble the dump root from the database-listing pages, each page holding
/// the per-database outcomes met while it was current. Here the policy is
/// strict: any failed listing page makes the whole export fail, while a
/// failed database entry is skipped.
pub fn build_dump(pages: Vec<Result<Vec<Result<Database, FetchError>>, FetchError>>) -> (r: Result<
    DumpFile,
    FetchError,
>)
    ensures
        r is Ok <==> db_pages_ok(pages@),
        r is Ok ==> r->Ok_0.databases@ == gather_dbs(pages@),
        r is Err ==> Some(r->Err_0) == first_db_err(pages@),
{
    let ghost orig = pages@;
    let mut pages_in = pages;
    let n0 = pages_in.len();
    proof {
        assert(orig.len() == n0 as int);
        assert(orig.skip(0) =~= orig);
    }
    let mut databases: Vec<Database> = Vec::new();
    let mut i: usize = 0;
    while pages_in.len() > 0
        invariant
            orig == pages@,
            0 <= i <= orig.len(),
            orig.len() <= usize::MAX,
            pages_in@ =~= orig.skip(i as int),
            databases@ =~= gather_dbs(orig.take(i as int)),
            db_pages_ok(orig.take(i as int)),
            first_db_err(orig) == first_db_err(orig.skip(i as int)),
        decreases pages_in@.len(),
    {
        let page = pages_in.remove(0);
        proof {
            assert(page == orig[i as int]);
            assert(i < orig.len());
            assert(pages_in@ =~= orig.skip(i + 1));
            lemma_take_succ(orig, i as int);
        }
        match page {
            Ok(entries) => {
                proof {
                    assert(orig.skip(i as int)[0] == orig[i as int]);
                    assert(orig.skip(i as int).drop_first() =~= orig.skip(i + 1));
                }
                let ghost eorig = entries@;
                let mut entries_in = entries;
                let m0 = entries_in.len();
                proof {
                    assert(eorig.len() == m0 as int);
                }
                let mut k: usize = 0;
                while entries_in.len() > 0
                    invariant
                        0 <= k <= eorig.len(),
                        eorig.len() <= usize::MAX,
                        entries_in@ =~= eorig.skip(k as int),
                        databases@ =~= gather_dbs(orig.take(i as int)) + oks_of_dbs(
                            eorig.take(k as int),
                        ),
                    decreases entries_in@.len(),
                {
                    let entry = entries_in.remove(0);
                    proof {
                        assert(entry == eorig[k as int]);
                        assert(k < eorig.len());
                        assert(entries_in@ =~= eorig.skip(k + 1));
                        lemma_take_succ(eorig, k as int);
                    }
                    match entry {
                        Ok(d) => {
                            databases.push(d);
                        },
                        Err(_) => {},
                    }
                    k = k + 1;
                }
                proof {
                    assert(eorig.take(eorig.len() as int) =~= eorig);
                    assert(databases@ =~= gather_dbs(orig.take(i + 1)));
                    assert forall|q: int| 0 <= q < i + 1 implies #[trigger] orig.take(i + 1)[q] is Ok by {
                        if q < i {
                            assert(orig.take(i as int)[q] is Ok);
                        }
                    }
                }
            },
            Err(e) => {
                proof {
                    assert(orig.skip(i as int)[0] == orig[i as int]);
                    assert(first_db_err(orig) == Some(e));
                    assert(!(orig[i as int] is Ok));
                }
                return Err(e);
            },
        }
        i = i + 1;
    }
    proof {
        assert(orig.take(orig.len() as int) =~= orig);
    }
    Ok(DumpFile { databases })
}

} // verus!
