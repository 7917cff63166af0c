use vstd::prelude::*;
use vstd::string::StringExecFns;
use crate::chars::string_of_chars;
use crate::json::Json;
use crate::json::JsonField;
use crate::json::JsonV;
use crate::json::arr_view;
use crate::json::json_view;
use crate::json::lemma_arr_view_push;
use crate::json::lemma_obj_view_push;
use crate::json::obj_view;
use crate::json::ser_json;
use crate::json::write_json;
use crate::text::lemma_take_succ;

verus! {

/// One exported record: an ordered list of named JSON values.
#[derive(Debug)]
pub struct Document {
    pub fields: Vec<JsonField>,
}

/// One container of a database, with every record it held at export time.
#[derive(Debug)]
pub struct Collection {
    pub name: String,
    pub documents: Vec<Document>,
}

/// One logical database, with every collection that could be enumerated.
#[derive(Debug)]
pub struct Database {
    pub name: String,
    pub collections: Vec<Collection>,
}

/// The root artifact of an export: the databases, in enumeration order.
#[derive(Debug)]
pub struct DumpFile {
    pub databases: Vec<Database>,
}

pub open spec fn name_key() -> Seq<char> {
    seq!['n', 'a', 'm', 'e']
}

pub open spec fn documents_key() -> Seq<char> {
    seq!['d', 'o', 'c', 'u', 'm', 'e', 'n', 't', 's']
}

pub open spec fn collections_key() -> Seq<char> {
    seq!['c', 'o', 'l', 'l', 'e', 'c', 't', 'i', 'o', 'n', 's']
}

pub open spec fn databases_key() -> Seq<char> {
    seq!['d', 'a', 't', 'a', 'b', 'a', 's', 'e', 's']
}

pub open spec fn doc_view(d: Document) -> JsonV {
    JsonV::Obj(obj_view(d.fields@))
}

pub open spec fn docs_view(ds: Seq<Document>) -> Seq<JsonV>
    decreases ds.len(),
{
    if ds.len() == 0 {
        Seq::empty()
    } else {
        docs_view(ds.drop_last()).push(doc_view(ds.last()))
    }
}

pub open spec fn col_view(c: Collection) -> JsonV {
    JsonV::Obj(
        seq![
            (name_key(), JsonV::Str(c.name@)),
            (documents_key(), JsonV::Arr(docs_view(c.documents@))),
        ],
    )
}

pub open spec fn cols_view(cs: Seq<Collection>) -> Seq<JsonV>
    decreases cs.len(),
{
    if cs.len() == 0 {
        Seq::empty()
    } else {
        cols_view(cs.drop_last()).push(col_view(cs.last()))
    }
}

pub open spec fn db_view(d: Database) -> JsonV {
    JsonV::Obj(
        seq![
            (name_key(), JsonV::Str(d.name@)),
            (collections_key(), JsonV::Arr(cols_view(d.collections@))),
        ],
    )
}

pub open spec fn dbs_view(ds: Seq<Database>) -> Seq<JsonV>
    decreases ds.len(),
{
    if ds.len() == 0 {
        Seq::empty()
    } else {
        dbs_view(ds.drop_last()).push(db_view(ds.last()))
    }
}

/// The JSON shape of a whole dump.
pub open spec fn dump_view(f: DumpFile) -> JsonV {
    JsonV::Obj(seq![(databases_key(), JsonV::Arr(dbs_view(f.databases@)))])
}

/// The exact text a dump serializes to.
pub open spec fn spec_dump_text(f: DumpFile) -> Seq<char> {
    ser_json(dump_view(f))
}

fn col_to_json(c: Collection) -> (r: Json)
    ensures
        json_view(r) == col_view(c),
{
    let mut docs_in = c.documents;
    let ghost orig = docs_in@;
    let n0 = docs_in.len();
    proof {
        assert(orig.len() == n0 as int);
    }
    let mut docs: Vec<Json> = Vec::new();
    let mut i: usize = 0;
    while docs_in.len() > 0
        invariant
            0 <= i <= orig.len(),
            orig.len() <= usize::MAX,
            docs_in@ =~= orig.skip(i as int),
            arr_view(docs@) =~= docs_view(orig.take(i as int)),
        decreases docs_in@.len(),
    {
        let d = docs_in.remove(0);
        let dj = Json::Obj(d.fields);
        proof {
            lemma_take_succ(orig, i as int);
            assert(d == orig[i as int]);
            assert(json_view(dj) == doc_view(orig[i as int]));
            lemma_arr_view_push(docs@, dj);
            assert(i < orig.len());
            assert(docs_in@ =~= orig.skip(i + 1));
        }
        docs.push(dj);
        i = i + 1;
    }
    proof {
        assert(orig.take(orig.len() as int) =~= orig);
    }
    let nkey = String::from_str("name");
    let dkey = String::from_str("documents");
    proof {
        reveal_strlit("name");
        reveal_strlit("documents");
        assert(nkey@ =~= name_key());
        assert(dkey@ =~= documents_key());
    }
    let mut cfields: Vec<JsonField> = Vec::new();
    cfields.push(JsonField { name: nkey, value: Json::Str(c.name) });
    cfields.push(JsonField { name: dkey, value: Json::Arr(docs) });
    let r = Json::Obj(cfields);
    proof {
        lemma_obj_view_push(Seq::<JsonField>::empty().push(cfields@[0]), cfields@[1]);
        lemma_obj_view_push(Seq::<JsonField>::empty(), cfields@[0]);
        assert(obj_view(cfields@) =~~= seq![
            (name_key(), JsonV::Str(c.name@)),
            (documents_key(), JsonV::Arr(docs_view(c.documents@))),
        ]);
    }
    r
}

fn db_to_json(d: Database) -> (r: Json)
    ensures
        json_view(r) == db_view(d),
{
    let mut cols_in = d.collections;
    let ghost orig = cols_in@;
    let n0 = cols_in.len();
    proof {
        assert(orig.len() == n0 as int);
    }
    let mut cols: Vec<Json> = Vec::new();
    let mut i: usize = 0;
    while cols_in.len() > 0
        invariant
            0 <= i <= orig.len(),
            orig.len() <= usize::MAX,
            cols_in@ =~= orig.skip(i as int),
            arr_view(cols@) =~= cols_view(orig.take(i as int)),
        decreases cols_in@.len(),
    {
        let c = cols_in.remove(0);
        proof {
            assert(c == orig[i as int]);
        }
        let cj = col_to_json(c);
        proof {
            lemma_take_succ(orig, i as int);
            lemma_arr_view_push(cols@, cj);
            assert(i < orig.len());
            assert(cols_in@ =~= orig.skip(i + 1));
        }
        cols.push(cj);
        i = i + 1;
    }
    proof {
        assert(orig.take(orig.len() as int) =~= orig);
    }
    let nkey = String::from_str("name");
    let ckey = String::from_str("collections");
    proof {
        reveal_strlit("name");
        reveal_strlit("collections");
        assert(nkey@ =~= name_key());
        assert(ckey@ =~= collections_key());
    }
    let mut dfields: Vec<JsonField> = Vec::new();
    dfields.push(JsonField { name: nkey, value: Json::Str(d.name) });
    dfields.push(JsonField { name: ckey, value: Json::Arr(cols) });
    let r = Json::Obj(dfields);
    proof {
        lemma_obj_view_push(Seq::<JsonField>::empty().push(dfields@[0]), dfields@[1]);
        lemma_obj_view_push(Seq::<JsonField>::empty(), dfields@[0]);
        assert(obj_view(dfields@) =~~= seq![
            (name_key(), JsonV::Str(d.name@)),
            (collections_key(), JsonV::Arr(cols_view(d.collections@))),
        ]);
    }
    r
}

/// Turn an assembled dump into its JSON value.
pub fn dump_to_json(f: DumpFile) -> (r: Json)
    ensures
        json_view(r) == dump_view(f),
{
    let mut dbs_in = f.databases;
    let ghost orig = dbs_in@;
    let n0 = dbs_in.len();
    proof {
        assert(orig.len() == n0 as int);
    }
    let mut dbs: Vec<Json> = Vec::new();
    let mut i: usize = 0;
    while dbs_in.len() > 0
        invariant
            0 <= i <= orig.len(),
            orig.len() <= usize::MAX,
            dbs_in@ =~= orig.skip(i as int),
            arr_view(dbs@) =~= dbs_view(orig.take(i as int)),
        decreases dbs_in@.len(),
    {
        let d = dbs_in.remove(0);
        proof {
            assert(d == orig[i as int]);
        }
        let dj = db_to_json(d);
        proof {
            lemma_take_succ(orig, i as int);
            lemma_arr_view_push(dbs@, dj);
            assert(i < orig.len());
            assert(dbs_in@ =~= orig.skip(i + 1));
        }
        dbs.push(dj);
        i = i + 1;
    }
    proof {
        assert(orig.take(orig.len() as int) =~= orig);
    }
    let bkey = String::from_str("databases");
    proof {
        reveal_strlit("databases");
        assert(bkey@ =~= databases_key());
    }
    let mut rfields: Vec<JsonField> = Vec::new();
    rfields.push(JsonField { name: bkey, value: Json::Arr(dbs) });
    let r = Json::Obj(rfields);
    proof {
        lemma_obj_view_push(Seq::<JsonField>::empty(), rfields@[0]);
        assert(obj_view(rfields@) =~~= seq![(databases_key(), JsonV::Arr(dbs_view(f.databases@)))]);
    }
    r
}

/// Render an assembled dump to its output text.
pub fn dump_to_string(f: DumpFile) -> (r: String)
    ensures
        r@ == spec_dump_text(f),
{
    let j = dump_to_json(f);
    let mut out: Vec<char> = Vec::new();
    write_json(&j, &mut out);
    string_of_chars(&out)
}

} // verus!
