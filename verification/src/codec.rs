//! The codec: lossless, deterministic conversion between a [`World`] and a
//! nested textual document, and back.
//!
//! The document mirrors the persisted format: a key-value map with `width`,
//! `height` and `current_uid` entries, one entry per column keyed by its
//! decimal x-coordinate, inside it one entry per cell keyed by its decimal
//! y-coordinate, and each object as a map of its `uid` and its kind tag.

use vstd::prelude::*;

use crate::tile::spec_tag;
use crate::tile::spec_tile_of_tag;
use crate::world::WObject;
use crate::world::World;
use crate::world::WorldModel;

verus! {

/// One node of a textual document: an unsigned number, a text, an ordered
/// list, or an ordered key-value map.
#[derive(Debug, PartialEq, Eq)]
pub enum DocValue {
    Num(u64),
    Text(String),
    List(Vec<DocValue>),
    Entries(Vec<(String, DocValue)>),
}

/// The mathematical shape of a document node.
pub enum DocModel {
    Num(u64),
    Text(Seq<char>),
    List(Seq<DocModel>),
    Entries(Seq<(Seq<char>, DocModel)>),
}

/// The shape of a document node, element by element.
pub open spec fn doc_model(d: DocValue) -> DocModel
    decreases d,
{
    match d {
        DocValue::Num(n) => DocModel::Num(n),
        DocValue::Text(s) => DocModel::Text(s@),
        DocValue::List(items) => DocModel::List(doc_list_model(items@)),
        DocValue::Entries(es) => DocModel::Entries(doc_entries_model(es@)),
    }
}

/// The shapes of the elements of a document list.
pub open spec fn doc_list_model(items: Seq<DocValue>) -> Seq<DocModel>
    decreases items,
{
    if items.len() == 0 {
        Seq::empty()
    } else {
        seq![doc_model(items[0])] + doc_list_model(items.drop_first())
    }
}

/// The shapes of the entries of a document map.
pub open spec fn doc_entries_model(es: Seq<(String, DocValue)>) -> Seq<(Seq<char>, DocModel)>
    decreases es,
{
    if es.len() == 0 {
        Seq::empty()
    } else {
        seq![(es[0].0@, doc_model(es[0].1))] + doc_entries_model(es.drop_first())
    }
}

impl View for DocValue {
    type V = DocModel;

    open spec fn view(&self) -> DocModel {
        doc_model(*self)
    }
}

/// The model of a list is the pointwise model of its elements.
pub proof fn lemma_doc_list_model(items: Seq<DocValue>)
    ensures
        doc_list_model(items).len() == items.len(),
        forall|i: int| 0 <= i < items.len() ==> #[trigger] doc_list_model(items)[i] == doc_model(
            items[i],
        ),
    decreases items.len(),
{
    if items.len() > 0 {
        lemma_doc_list_model(items.drop_first());
    }
}

/// The model of a map is the pointwise model of its entries.
pub proof fn lemma_doc_entries_model(es: Seq<(String, DocValue)>)
    ensures
        doc_entries_model(es).len() == es.len(),
        forall|i: int| 0 <= i < es.len() ==> #[trigger] doc_entries_model(es)[i] == (
            es[i].0@,
            doc_model(es[i].1),
        ),
    decreases es.len(),
{
    if es.len() > 0 {
        lemma_doc_entries_model(es.drop_first());
    }
}

/// The character standing for the decimal digit `d`.
pub open spec fn dec_digit(d: nat) -> char {
    if d == 0 {
        '0'
    } else if d == 1 {
        '1'
    } else if d == 2 {
        '2'
    } else if d == 3 {
        '3'
    } else if d == 4 {
        '4'
    } else if d == 5 {
        '5'
    } else if d == 6 {
        '6'
    } else if d == 7 {
        '7'
    } else if d == 8 {
        '8'
    } else {
        '9'
    }
}

/// Whether `c` is a decimal digit character.
pub open spec fn is_dec_digit(c: char) -> bool {
    c == '0' || c == '1' || c == '2' || c == '3' || c == '4' || c == '5' || c == '6' || c == '7'
        || c == '8' || c == '9'
}

/// The decimal representation of `n`, most significant digit first, with no
/// leading zeroes.
pub open spec fn dec_str(n: nat) -> Seq<char>
    decreases n,
{
    if n < 10 {
        seq![dec_digit(n)]
    } else {
        dec_str(n / 10).push(dec_digit(n % 10))
    }
}

/// A decimal representation is nonempty and consists of digits alone.
pub proof fn lemma_dec_str_digits(n: nat)
    ensures
        dec_str(n).len() >= 1,
        forall|k: int| 0 <= k < dec_str(n).len() ==> is_dec_digit(#[trigger] dec_str(n)[k]),
    decreases n,
{
    if n >= 10 {
        lemma_dec_str_digits(n / 10);
    }
}

/// Distinct digits get distinct characters.
proof fn lemma_dec_digit_injective(a: nat, b: nat)
    requires
        a < 10,
        b < 10,
        dec_digit(a) == dec_digit(b),
    ensures
        a == b,
{
}

/// Distinct numbers get distinct decimal representations.
pub proof fn lemma_dec_str_injective(a: nat, b: nat)
    requires
        dec_str(a) == dec_str(b),
    ensures
        a == b,
    decreases a,
{
    if a < 10 && b < 10 {
        assert(dec_str(a)[0] == dec_digit(a));
        assert(dec_str(b)[0] == dec_digit(b));
        lemma_dec_digit_injective(a, b);
    } else if a >= 10 && b >= 10 {
        lemma_dec_str_digits(a / 10);
        lemma_dec_str_digits(b / 10);
        assert(dec_str(a).last() == dec_digit(a % 10));
        assert(dec_str(b).last() == dec_digit(b % 10));
        assert(dec_str(a).drop_last() =~= dec_str(a / 10));
        assert(dec_str(b).drop_last() =~= dec_str(b / 10));
        lemma_dec_str_injective(a / 10, b / 10);
        lemma_dec_digit_injective(a % 10, b % 10);
        assert(a == 10 * (a / 10) + a % 10) by {
            vstd::arithmetic::div_mod::lemma_fundamental_div_mod(a as int, 10);
        }
        assert(b == 10 * (b / 10) + b % 10) by {
            vstd::arithmetic::div_mod::lemma_fundamental_div_mod(b as int, 10);
        }
    } else if a < 10 {
        lemma_dec_str_digits(b / 10);
        assert(dec_str(b).len() >= 2);
        assert(false);
    } else {
        lemma_dec_str_digits(a / 10);
        assert(dec_str(a).len() >= 2);
        assert(false);
    }
}

/// A decimal key never collides with one of the three named keys.
pub proof fn lemma_dec_str_not_named(n: nat)
    ensures
        dec_str(n) != "width"@,
        dec_str(n) != "height"@,
        dec_str(n) != "current_uid"@,
{
    reveal_strlit("width");
    reveal_strlit("height");
    reveal_strlit("current_uid");
    lemma_dec_str_digits(n);
    if dec_str(n) == "width"@ {
        assert(is_dec_digit("width"@[0]));
        assert(false);
    }
    if dec_str(n) == "height"@ {
        assert(is_dec_digit("height"@[0]));
        assert(false);
    }
    if dec_str(n) == "current_uid"@ {
        assert(is_dec_digit("current_uid"@[0]));
        assert(false);
    }
}

/// Relies on `u32`'s `Display` through `ToString::to_string`: the decimal
/// digits of the value, most significant first, no sign, no leading zeroes.
#[verifier::external_body]
fn u32_to_dec(n: u32) -> (s: String)
    ensures
        s@ == dec_str(n as nat),
{
    n.to_string()
}

/// The value under the first entry carrying `key`, if any.
pub open spec fn entries_lookup(es: Seq<(Seq<char>, DocModel)>, key: Seq<char>) -> Option<
    DocModel,
>
    decreases es.len(),
{
    if es.len() == 0 {
        None
    } else if es[0].0 == key {
        Some(es[0].1)
    } else {
        entries_lookup(es.drop_first(), key)
    }
}

/// A lookup skips over entries whose keys differ from the one sought.
pub proof fn lemma_lookup_skip(es: Seq<(Seq<char>, DocModel)>, key: Seq<char>, i: int)
    requires
        0 <= i <= es.len(),
        forall|j: int| 0 <= j < i ==> (#[trigger] es[j]).0 != key,
    ensures
        entries_lookup(es, key) == entries_lookup(es.skip(i), key),
    decreases i,
{
    if i > 0 {
        assert(es.skip(0) =~= es);
        lemma_lookup_skip(es.drop_first(), key, i - 1);
        assert(es.drop_first().skip(i - 1) =~= es.skip(i));
    } else {
        assert(es.skip(0) =~= es);
    }
}

/// Looking up the key of entry `j` finds that entry, provided no earlier
/// entry shares its key.
pub proof fn lemma_lookup_at(es: Seq<(Seq<char>, DocModel)>, j: int)
    requires
        0 <= j < es.len(),
        forall|a: int| 0 <= a < j ==> (#[trigger] es[a]).0 != es[j].0,
    ensures
        entries_lookup(es, es[j].0) == Some(es[j].1),
{
    lemma_lookup_skip(es, es[j].0, j);
    assert(es.skip(j)[0] == es[j]);
    assert(es.skip(j).len() > 0);
}

/// The document form of one placed object: its identity and its kind tag.
pub open spec fn spec_obj_doc(o: WObject) -> DocModel {
    DocModel::Entries(
        seq![
            ("uid"@, DocModel::Num(o.uid as u64)),
            ("obj"@, DocModel::Text(spec_tag(o.obj))),
        ],
    )
}

/// The document form of one cell: its objects in stack order.
pub open spec fn spec_cell_doc(c: Seq<WObject>) -> DocModel {
    DocModel::List(c.map_values(|o: WObject| spec_obj_doc(o)))
}

/// The document form of column `x`: one entry per cell, keyed by the
/// decimal y-coordinate.
pub open spec fn spec_col_doc(m: WorldModel, x: int) -> DocModel {
    DocModel::Entries(
        Seq::new(m.height, |y: int| (dec_str(y as nat), spec_cell_doc(m.cell(x, y)))),
    )
}

/// The document form of a whole world: the three named entries followed by
/// one entry per column, keyed by the decimal x-coordinate.
pub open spec fn spec_encode(m: WorldModel) -> DocModel {
    DocModel::Entries(
        seq![
            ("width"@, DocModel::Num(m.width as u64)),
            ("height"@, DocModel::Num(m.height as u64)),
            ("current_uid"@, DocModel::Num(m.current_uid as u64)),
        ] + Seq::new(m.width, |x: int| (dec_str(x as nat), spec_col_doc(m, x))),
    )
}

/// Reads one object out of its document node.
fn decode_obj(od: &DocValue, x: u32, y: u32) -> (r: Result<WObject, CorruptData>)
    ensures
        r is Ok <==> spec_obj_of(od@) is Some,
        r matches Ok(o) ==> Some(o) == spec_obj_of(od@),
        r matches Err(e) ==> obj_fault(od@, e, x, y),
{
    let oes = match od {
        DocValue::Entries(oes) => oes,
        _ => {
            return Err(CorruptData::ObjectNotEntries { x, y });
        },
    };
    let uid_key = "uid".to_owned();
    let u = match lookup(oes, &uid_key) {
        Some(DocValue::Num(u)) => *u,
        Some(v) => {
            proof {
                assert(!(doc_model(*v) is Num));
            }
            return Err(CorruptData::ObjectUidNotNum { x, y });
        },
        None => {
            return Err(CorruptData::ObjectMissingUid { x, y });
        },
    };
    let obj_key = "obj".to_owned();
    let t = match lookup(oes, &obj_key) {
        Some(DocValue::Text(t)) => t,
        Some(v) => {
            proof {
                assert(!(doc_model(*v) is Text));
            }
            return Err(CorruptData::ObjectKindNotText { x, y });
        },
        None => {
            return Err(CorruptData::ObjectMissingKind { x, y });
        },
    };
    let kind = match crate::tile::tile_of_tag(t) {
        Some(k) => k,
        None => {
            return Err(CorruptData::UnknownKind { x, y });
        },
    };
    if u > u32::MAX as u64 {
        return Err(CorruptData::ObjectUidTooLarge { x, y });
    }
    Ok(WObject { uid: u as u32, obj: kind })
}

/// Reads one cell's object stack out of its document node.
fn decode_cell(cd: &DocValue, x: u32, y: u32) -> (r: Result<Vec<WObject>, CorruptData>)
    ensures
        r is Ok <==> spec_cell_of_doc(cd@) is Some,
        r matches Ok(c) ==> Some(c@) == spec_cell_of_doc(cd@),
        r matches Err(e) ==> cell_fault(cd@, e, x, y),
{
    let items = match cd {
        DocValue::List(items) => items,
        _ => {
            return Err(CorruptData::CellNotList { x, y });
        },
    };
    proof {
        lemma_doc_list_model(items@);
        assert(cd@ == DocModel::List(doc_list_model(items@)));
    }
    let ghost model = doc_list_model(items@);
    let mut cell: Vec<WObject> = Vec::new();
    let mut k: usize = 0;
    while k < items.len()
        invariant
            cd@ == DocModel::List(model),
            model == doc_list_model(items@),
            model.len() == items@.len(),
            forall|j: int| 0 <= j < items@.len() ==> #[trigger] model[j] == doc_model(items@[j]),
            k <= items@.len(),
            cell@.len() == k,
            forall|j: int| 0 <= j < k ==> #[trigger] spec_obj_of(model[j]) is Some && cell@[j]
                == spec_obj_of(model[j])->Some_0,
        decreases items@.len() - k,
    {
        let o = match decode_obj(&items[k], x, y) {
            Ok(o) => o,
            Err(e) => {
                proof {
                    assert(cd@ == DocModel::List(model));
                    assert(!(spec_obj_of(model[k as int]) is Some));
                    assert(obj_fault(model[k as int], e, x, y));
                }
                return Err(e);
            },
        };
        cell.push(o);
        k = k + 1;
    }
    proof {
        assert(spec_cell_of_doc(cd@) is Some);
        assert(cell@ =~= spec_cell_of_doc(cd@)->Some_0);
    }
    Ok(cell)
}

/// Whether an identity already occurs in a stack.
fn stack_contains_uid(cell: &Vec<WObject>, uid: u32) -> (r: bool)
    ensures
        r == exists|i: int| 0 <= i < cell@.len() && cell@[i].uid == uid,
{
    let mut i: usize = 0;
    while i < cell.len()
        invariant
            i <= cell@.len(),
            forall|j: int| 0 <= j < i ==> #[trigger] cell@[j].uid != uid,
        decreases cell@.len() - i,
    {
        if cell[i].uid == uid {
            return true;
        }
        i = i + 1;
    }
    false
}

/// Whether an identity already occurs among the first `j` objects of a
/// stack.
fn stack_contains_prefix(cell: &Vec<WObject>, j: usize, uid: u32) -> (r: bool)
    requires
        j <= cell@.len(),
    ensures
        r == exists|i: int| 0 <= i < j && cell@[i].uid == uid,
{
    let mut i: usize = 0;
    while i < j
        invariant
            i <= j,
            j <= cell@.len(),
            forall|i2: int| 0 <= i2 < i ==> #[trigger] cell@[i2].uid != uid,
        decreases j - i,
    {
        if cell[i].uid == uid {
            return true;
        }
        i = i + 1;
    }
    false
}

/// Whether an identity already occurs in any of the built stacks.
fn stacks_contain_uid(data: &Vec<Vec<WObject>>, uid: u32) -> (r: bool)
    ensures
        r == exists|k: int, i: int|
            0 <= k < data@.len() && 0 <= i < data@[k]@.len() && data@[k]@[i].uid == uid,
{
    let mut k: usize = 0;
    while k < data.len()
        invariant
            k <= data@.len(),
            forall|k2: int, i: int| 0 <= k2 < k && 0 <= i < data@[k2]@.len()
                ==> #[trigger] data@[k2]@[i].uid != uid,
        decreases data@.len() - k,
    {
        if stack_contains_uid(&data[k], uid) {
            return true;
        }
        k = k + 1;
    }
    false
}

/// The three named header keys are pairwise distinct, as are the two keys
/// of an object map.
proof fn lemma_named_keys_distinct()
    ensures
        "width"@ != "height"@,
        "width"@ != "current_uid"@,
        "height"@ != "current_uid"@,
        "uid"@ != "obj"@,
{
    reveal_strlit("width");
    reveal_strlit("height");
    reveal_strlit("current_uid");
    reveal_strlit("uid");
    reveal_strlit("obj");
    assert("width"@.len() == 5 && "height"@.len() == 6 && "current_uid"@.len() == 11);
    assert("uid"@[0] == 'u' && "obj"@[0] == 'o');
}

/// Reading an object's document form back yields the object.
proof fn lemma_obj_roundtrip(o: WObject)
    ensures
        spec_obj_of(spec_obj_doc(o)) == Some(o),
{
    lemma_named_keys_distinct();
    let es = seq![
        ("uid"@, DocModel::Num(o.uid as u64)),
        ("obj"@, DocModel::Text(spec_tag(o.obj))),
    ];
    lemma_lookup_at(es, 0);
    lemma_lookup_at(es, 1);
    crate::tile::lemma_tag_roundtrip(o.obj);
}

/// Reading a cell's document form back yields the object stack.
proof fn lemma_cell_roundtrip(c: Seq<WObject>)
    ensures
        spec_cell_of_doc(spec_cell_doc(c)) == Some(c),
{
    let mapped = c.map_values(|o: WObject| spec_obj_doc(o));
    assert forall|i: int| 0 <= i < mapped.len() implies (#[trigger] spec_obj_of(mapped[i]))
        is Some && spec_obj_of(mapped[i])->Some_0 == c[i] by {
        assert(mapped[i] == spec_obj_doc(c[i]));
        lemma_obj_roundtrip(c[i]);
    }
    assert(Seq::new(mapped.len(), |i: int| spec_obj_of(mapped[i])->Some_0) =~= c);
}

/// The round trip law: any well-formed world, serialized and read back,
/// comes back identical — same dimensions, same identity counter, and for
/// every cell the same ordered object stack.
pub proof fn lemma_codec_roundtrip(m: WorldModel)
    requires
        m.inv(),
    ensures
        spec_decode(spec_encode(m)) == Some(m),
{
    let d = spec_encode(m);
    let named = seq![
        ("width"@, DocModel::Num(m.width as u64)),
        ("height"@, DocModel::Num(m.height as u64)),
        ("current_uid"@, DocModel::Num(m.current_uid as u64)),
    ];
    let cols = Seq::new(m.width, |x: int| (dec_str(x as nat), spec_col_doc(m, x)));
    let es = named + cols;
    assert(d == DocModel::Entries(es));
    lemma_named_keys_distinct();
    assert(es[0] == ("width"@, DocModel::Num(m.width as u64)));
    assert(es[1] == ("height"@, DocModel::Num(m.height as u64)));
    assert(es[2] == ("current_uid"@, DocModel::Num(m.current_uid as u64)));
    lemma_lookup_at(es, 0);
    assert(forall|a: int| 0 <= a < 1 ==> (#[trigger] es[a]).0 != es[1].0);
    lemma_lookup_at(es, 1);
    assert(forall|a: int| 0 <= a < 2 ==> (#[trigger] es[a]).0 != es[2].0);
    lemma_lookup_at(es, 2);
    assert(spec_num_field(es, "width"@) == Some(m.width as u64));
    assert(spec_num_field(es, "height"@) == Some(m.height as u64));
    assert(spec_num_field(es, "current_uid"@) == Some(m.current_uid as u64));
    let wn = m.width as u64;
    let hn = m.height as u64;
    let h = hn as int;
    assert forall|x: int, y: int| 0 <= x < wn && 0 <= y < hn implies (#[trigger] spec_cell_at(
        es,
        x,
        y,
    )) is Some && spec_cell_at(es, x, y)->Some_0 == m.cell(x, y) by {
        assert(es[3 + x] == cols[x]);
        assert(es[3 + x].0 == dec_str(x as nat));
        assert forall|a: int| 0 <= a < 3 + x implies (#[trigger] es[a]).0 != es[3 + x].0 by {
            lemma_dec_str_not_named(x as nat);
            if a >= 3 {
                assert(es[a] == cols[a - 3]);
                if es[a].0 == es[3 + x].0 {
                    lemma_dec_str_injective((a - 3) as nat, x as nat);
                    assert(false);
                }
            }
        }
        lemma_lookup_at(es, 3 + x);
        assert(entries_lookup(es, dec_str(x as nat)) == Some(spec_col_doc(m, x)));
        let colseq = Seq::new(m.height, |y2: int| (dec_str(y2 as nat), spec_cell_doc(m.cell(x, y2))));
        assert(spec_col_doc(m, x) == DocModel::Entries(colseq));
        assert(colseq[y].0 == dec_str(y as nat));
        assert forall|a: int| 0 <= a < y implies (#[trigger] colseq[a]).0 != colseq[y].0 by {
            if colseq[a].0 == colseq[y].0 {
                lemma_dec_str_injective(a as nat, y as nat);
                assert(false);
            }
        }
        lemma_lookup_at(colseq, y);
        assert(entries_lookup(colseq, dec_str(y as nat)) == Some(spec_cell_doc(m.cell(x, y))));
        lemma_cell_roundtrip(m.cell(x, y));
    }
    let m2 = WorldModel {
        width: wn as nat,
        height: hn as nat,
        current_uid: (m.current_uid as u64) as nat,
        grid: Seq::new(
            (wn * hn) as nat,
            |k: int| spec_cell_at(es, k / (hn as int), k % (hn as int))->Some_0,
        ),
    };
    assert(m2.grid.len() == m.grid.len());
    assert forall|k: int| 0 <= k < m.grid.len() implies m2.grid[k] == m.grid[k] by {
        vstd::arithmetic::div_mod::lemma_fundamental_div_mod(k, h);
        vstd::arithmetic::div_mod::lemma_mod_bound(k, h);
        vstd::arithmetic::div_mod::lemma_div_pos_is_pos(k, h);
        let x = k / h;
        let y = k % h;
        assert(x < wn) by (nonlinear_arith)
            requires
                h > 0,
                0 <= y < h,
                0 <= x,
                h * x + y == k,
                k < wn * h,
        ;
        assert(x * h + y == k) by (nonlinear_arith)
            requires
                h * x + y == k,
        ;
        assert(spec_cell_at(es, x, y)->Some_0 == m.cell(x, y));
        assert(m.cell(x, y) == m.grid[x * h + y]);
    }
    assert(m2 =~= m);
    assert(m2.uids_bounded() && m2.uids_unique());
    assert(spec_decode(d) == Some(m2));
}

/// The document round trip law: a document produced by serializing a
/// well-formed world, once read back and serialized again, is reproduced
/// exactly.
pub proof fn lemma_doc_roundtrip(m: WorldModel)
    requires
        m.inv(),
    ensures
        spec_decode(spec_encode(m)) is Some,
        spec_encode(spec_decode(spec_encode(m))->Some_0) == spec_encode(m),
{
    lemma_codec_roundtrip(m);
}

/// Whether every identity in the built stacks lies in `[1, cu)`.
spec fn stacks_bounded(ds: Seq<Vec<WObject>>, cu: nat) -> bool {
    forall|k: int, i: int| 0 <= k < ds.len() && 0 <= i < ds[k]@.len() ==> 1 <= (
    #[trigger] ds[k]@[i]).uid < cu
}

/// Whether no identity occurs twice across the built stacks.
spec fn stacks_unique(ds: Seq<Vec<WObject>>) -> bool {
    forall|k1: int, i1: int, k2: int, i2: int|
        0 <= k1 < ds.len() && 0 <= i1 < ds[k1]@.len() && 0 <= k2 < ds.len() && 0 <= i2
            < ds[k2]@.len() && (#[trigger] ds[k1]@[i1]).uid == (#[trigger] ds[k2]@[i2]).uid
            ==> k1 == k2 && i1 == i2
}

/// A flat position `x * h + y` with `0 <= y < h` splits back into `x` and
/// `y` by division and remainder.
proof fn lemma_flat_coords(h: int, x: int, y: int)
    requires
        h > 0,
        0 <= y < h,
        0 <= x,
    ensures
        (x * h + y) / h == x,
        (x * h + y) % h == y,
{
    vstd::arithmetic::div_mod::lemma_fundamental_div_mod_converse(x * h + y, h, x, y);
}

/// A flat position below `x * h + y` splits into coordinates
/// lexicographically before `(x, y)`.
proof fn lemma_flat_coords_before(h: int, x: int, y: int, k: int)
    requires
        h > 0,
        0 <= y < h,
        0 <= x,
        0 <= k < x * h + y,
    ensures
        0 <= k / h,
        0 <= k % h < h,
        (k / h) * h + k % h == k,
        k / h < x || (k / h == x && k % h < y),
{
    vstd::arithmetic::div_mod::lemma_fundamental_div_mod(k, h);
    vstd::arithmetic::div_mod::lemma_mod_bound(k, h);
    vstd::arithmetic::div_mod::lemma_div_pos_is_pos(k, h);
    let q = k / h;
    let r = k % h;
    assert(q < x || (q == x && r < y)) by (nonlinear_arith)
        requires
            h > 0,
            0 <= r < h,
            0 <= y < h,
            0 <= q,
            0 <= x,
            h * q + r == k,
            k < x * h + y,
    ;
    assert((k / h) * h + k % h == k) by {
        assert(k == h * q + r);
        assert(h * q == q * h) by (nonlinear_arith);
    }
}

/// The context after the three named header fields have been read and
/// checked: `d` is a map whose dimensions and identity counter are the
/// given in-range values.
spec fn header_ok(
    d: DocModel,
    es: Seq<(Seq<char>, DocModel)>,
    width: u32,
    height: u32,
    cu: u32,
) -> bool {
    &&& d == DocModel::Entries(es)
    &&& spec_num_field(es, "width"@) == Some(width as u64)
    &&& spec_num_field(es, "height"@) == Some(height as u64)
    &&& spec_num_field(es, "current_uid"@) == Some(cu as u64)
    &&& 1 <= cu
    &&& width * height <= usize::MAX
}

/// Under a well-formed header, a cell in range that does not decode
/// refutes the whole document.
proof fn lemma_decode_err_cell(
    d: DocModel,
    es: Seq<(Seq<char>, DocModel)>,
    width: u32,
    height: u32,
    cu: u32,
    x: u32,
    y: u32,
)
    requires
        header_ok(d, es, width, height, cu),
        x < width,
        y < height,
        !(spec_cell_at(es, x as int, y as int) is Some),
    ensures
        spec_decode(d) is None,
{
}

/// When a well-formed document decodes, each cell of the decoded model is
/// the decoded stack of the corresponding document cell.
proof fn lemma_decode_some_cell(
    d: DocModel,
    es: Seq<(Seq<char>, DocModel)>,
    width: u32,
    height: u32,
    cu: u32,
    x: int,
    y: int,
)
    requires
        header_ok(d, es, width, height, cu),
        spec_decode(d) is Some,
        0 <= x < width,
        0 <= y < height,
    ensures
        ({
            let m = spec_decode(d)->Some_0;
            &&& m.width == width
            &&& m.height == height
            &&& m.current_uid == cu
            &&& m.complete()
            &&& m.uids_bounded()
            &&& m.uids_unique()
            &&& m.in_bounds(x, y)
            &&& spec_cell_at(es, x, y) is Some
            &&& m.cell(x, y) == spec_cell_at(es, x, y)->Some_0
        }),
{
    let m = spec_decode(d)->Some_0;
    assert(0 <= x * height + y < width * height) by (nonlinear_arith)
        requires
            0 <= x < width,
            0 <= y < height,
    ;
    lemma_flat_coords(height as int, x, y);
    assert(m.grid[x * (height as int) + y] == spec_cell_at(es, x, y)->Some_0);
}

/// Under a well-formed header, an object whose identity lies outside
/// `[1, cu)` refutes the whole document.
proof fn lemma_decode_err_slot(
    d: DocModel,
    es: Seq<(Seq<char>, DocModel)>,
    width: u32,
    height: u32,
    cu: u32,
    x: u32,
    y: u32,
    cl: Seq<WObject>,
    j: int,
)
    requires
        header_ok(d, es, width, height, cu),
        x < width,
        y < height,
        spec_cell_at(es, x as int, y as int) == Some(cl),
        0 <= j < cl.len(),
        !(1 <= cl[j].uid < cu),
    ensures
        spec_decode(d) is None,
        doc_fault(d, (CorruptData::UidOutOfRange { uid: cl[j].uid })),
{
    if spec_decode(d) is Some {
        let m = spec_decode(d)->Some_0;
        lemma_decode_some_cell(d, es, width, height, cu, x as int, y as int);
        assert(m.cell(x as int, y as int) == cl);
        assert(m.valid_slot(x as int, y as int, j));
        assert(false);
    }
    assert(slot_uid(es, x as int, y as int, j) == Some(cl[j].uid));
}

/// Under a well-formed header, an identity occurring both in an earlier
/// cell and in the current one refutes the whole document.
proof fn lemma_decode_err_duplicate(
    d: DocModel,
    es: Seq<(Seq<char>, DocModel)>,
    width: u32,
    height: u32,
    cu: u32,
    x: u32,
    y: u32,
    cl: Seq<WObject>,
    j: int,
    k2: int,
    i2: int,
    ds: Seq<Vec<WObject>>,
)
    requires
        header_ok(d, es, width, height, cu),
        x < width,
        y < height,
        spec_cell_at(es, x as int, y as int) == Some(cl),
        0 <= j < cl.len(),
        ds.len() == x * height + y,
        forall|x2: int, y2: int|
            (0 <= x2 < x && 0 <= y2 < height) || (x2 == x && 0 <= y2 < y) ==> (
            #[trigger] spec_cell_at(es, x2, y2)) is Some && ds[x2 * height + y2]@ == spec_cell_at(
                es,
                x2,
                y2,
            )->Some_0,
        0 <= k2 < ds.len(),
        0 <= i2 < ds[k2]@.len(),
        ds[k2]@[i2].uid == cl[j].uid,
    ensures
        spec_decode(d) is None,
        doc_fault(d, (CorruptData::DuplicateUid { uid: cl[j].uid })),
{
    let h = height as int;
    lemma_flat_coords_before(h, x as int, y as int, k2);
    let x2 = k2 / h;
    let y2 = k2 % h;
    assert((0 <= x2 < x && 0 <= y2 < height) || (x2 == x && 0 <= y2 < y)) by (nonlinear_arith)
        requires
            h == height,
            h > 0,
            0 <= y2 < h,
            0 <= x2,
            x2 * h + y2 == k2,
            0 <= k2 < x * h + y,
            x < width,
            y < h,
    ;
    assert(spec_cell_at(es, x2, y2) is Some && ds[x2 * h + y2]@ == spec_cell_at(
        es,
        x2,
        y2,
    )->Some_0);
    if spec_decode(d) is Some {
        let m = spec_decode(d)->Some_0;
        lemma_decode_some_cell(d, es, width, height, cu, x as int, y as int);
        lemma_decode_some_cell(d, es, width, height, cu, x2, y2);
        assert(m.cell(x as int, y as int) == cl);
        assert(m.cell(x2, y2) == ds[x2 * height + y2]@);
        assert(m.valid_slot(x as int, y as int, j));
        assert(m.valid_slot(x2, y2, i2));
        assert(m.cell(x2, y2)[i2].uid == m.cell(x as int, y as int)[j].uid);
        assert(x2 == x as int && y2 == y as int && i2 == j);
        assert(false);
    }
    assert(slot_uid(es, x2, y2, i2) == Some(cl[j].uid));
    assert(slot_uid(es, x as int, y as int, j) == Some(cl[j].uid));
    assert(!(x2 == x as int && y2 == y as int && i2 == j));
}

/// Under a well-formed header, an identity occurring twice in one cell
/// refutes the whole document.
proof fn lemma_decode_err_cell_duplicate(
    d: DocModel,
    es: Seq<(Seq<char>, DocModel)>,
    width: u32,
    height: u32,
    cu: u32,
    x: u32,
    y: u32,
    cl: Seq<WObject>,
    j2: int,
    j3: int,
)
    requires
        header_ok(d, es, width, height, cu),
        x < width,
        y < height,
        spec_cell_at(es, x as int, y as int) == Some(cl),
        0 <= j2 < j3 < cl.len(),
        cl[j2].uid == cl[j3].uid,
    ensures
        spec_decode(d) is None,
        doc_fault(d, (CorruptData::DuplicateUid { uid: cl[j3].uid })),
{
    if spec_decode(d) is Some {
        let m = spec_decode(d)->Some_0;
        lemma_decode_some_cell(d, es, width, height, cu, x as int, y as int);
        assert(m.cell(x as int, y as int) == cl);
        assert(m.valid_slot(x as int, y as int, j2));
        assert(m.valid_slot(x as int, y as int, j3));
        assert(false);
    }
    assert(slot_uid(es, x as int, y as int, j2) == Some(cl[j3].uid));
    assert(slot_uid(es, x as int, y as int, j3) == Some(cl[j3].uid));
}

/// Appending one more stack whose identities are in range, pairwise
/// distinct, and absent from the earlier stacks preserves both stack
/// disciplines.
proof fn lemma_stacks_push(ds0: Seq<Vec<WObject>>, ds1: Seq<Vec<WObject>>, cl: Seq<WObject>, cu: nat)
    requires
        ds1.len() == ds0.len() + 1,
        forall|k: int| 0 <= k < ds0.len() ==> #[trigger] ds1[k] == ds0[k],
        ds1[ds0.len() as int]@ == cl,
        stacks_bounded(ds0, cu),
        stacks_unique(ds0),
        forall|j2: int| 0 <= j2 < cl.len() ==> 1 <= (#[trigger] cl[j2]).uid < cu,
        forall|j2: int, j3: int| 0 <= j2 < j3 < cl.len() ==> (#[trigger] cl[j2]).uid != (
        #[trigger] cl[j3]).uid,
        forall|k2: int, i2: int, j2: int|
            0 <= k2 < ds0.len() && 0 <= i2 < ds0[k2]@.len() && 0 <= j2 < cl.len() ==> (
            #[trigger] ds0[k2]@[i2]).uid != (#[trigger] cl[j2]).uid,
    ensures
        stacks_bounded(ds1, cu),
        stacks_unique(ds1),
{
    let n = ds0.len() as int;
    assert forall|k: int, i: int| 0 <= k < ds1.len() && 0 <= i < ds1[k]@.len() implies 1 <= (
    #[trigger] ds1[k]@[i]).uid < cu by {
        if k < n {
            assert(ds1[k] == ds0[k]);
            assert(1 <= ds0[k]@[i].uid < cu);
        } else {
            assert(1 <= cl[i].uid < cu);
        }
    }
    assert forall|k1: int, i1: int, k2: int, i2: int|
        0 <= k1 < ds1.len() && 0 <= i1 < ds1[k1]@.len() && 0 <= k2 < ds1.len() && 0 <= i2
            < ds1[k2]@.len() && (#[trigger] ds1[k1]@[i1]).uid == (#[trigger] ds1[k2]@[i2]).uid
        implies k1 == k2 && i1 == i2 by {
        if k1 < n && k2 < n {
            assert(ds1[k1] == ds0[k1]);
            assert(ds1[k2] == ds0[k2]);
            assert(ds0[k1]@[i1].uid == ds0[k2]@[i2].uid);
        } else if k1 < n {
            assert(ds1[k1] == ds0[k1]);
            assert(ds0[k1]@[i1].uid == cl[i2].uid);
            assert(false);
        } else if k2 < n {
            assert(ds1[k2] == ds0[k2]);
            assert(ds0[k2]@[i2].uid == cl[i1].uid);
            assert(false);
        } else {
            if i1 < i2 {
                assert(cl[i1].uid != cl[i2].uid);
            } else if i2 < i1 {
                assert(cl[i2].uid != cl[i1].uid);
            }
        }
    }
}

/// With every cell decoded and both stack disciplines holding, the document
/// decodes to exactly the reassembled model, which is well formed.
proof fn lemma_decode_final(
    d: DocModel,
    es: Seq<(Seq<char>, DocModel)>,
    width: u32,
    height: u32,
    cu: u32,
    ds: Seq<Vec<WObject>>,
    wm: WorldModel,
)
    requires
        header_ok(d, es, width, height, cu),
        ds.len() == width * height,
        forall|x2: int, y2: int| 0 <= x2 < width && 0 <= y2 < height ==> (
        #[trigger] spec_cell_at(es, x2, y2)) is Some && ds[x2 * height + y2]@ == spec_cell_at(
            es,
            x2,
            y2,
        )->Some_0,
        stacks_bounded(ds, cu as nat),
        stacks_unique(ds),
        wm == crate::world::parts_model(width, height, cu, ds),
    ensures
        spec_decode(d) == Some(wm),
        wm.inv(),
{
    let h = height as int;
    let w = width as int;
    // the reassembled model is well formed
    assert(wm.complete());
    assert forall|x: int, y: int, i: int| #[trigger] wm.valid_slot(x, y, i) implies 1 <= wm.cell(
        x,
        y,
    )[i].uid < wm.current_uid by {
        wm.lemma_idx_in_range(x, y);
        assert(wm.cell(x, y) == ds[x * h + y]@);
    }
    assert forall|x1: int, y1: int, i1: int, x2: int, y2: int, i2: int|
        #[trigger] wm.valid_slot(x1, y1, i1) && #[trigger] wm.valid_slot(x2, y2, i2) && wm.cell(
            x1,
            y1,
        )[i1].uid == wm.cell(x2, y2)[i2].uid implies x1 == x2 && y1 == y2 && i1 == i2 by {
        wm.lemma_idx_in_range(x1, y1);
        wm.lemma_idx_in_range(x2, y2);
        assert(wm.cell(x1, y1) == ds[x1 * h + y1]@);
        assert(wm.cell(x2, y2) == ds[x2 * h + y2]@);
        if x1 * h + y1 == x2 * h + y2 {
            wm.lemma_idx_injective(x1, y1, x2, y2);
        }
    }
    assert(wm.inv());
    // the document decodes, and to that very model
    let wn = width as u64;
    let hn = height as u64;
    let m_spec = WorldModel {
        width: wn as nat,
        height: hn as nat,
        current_uid: (cu as u64) as nat,
        grid: Seq::new(
            (wn * hn) as nat,
            |k: int| spec_cell_at(es, k / (hn as int), k % (hn as int))->Some_0,
        ),
    };
    assert(m_spec.grid.len() == wm.grid.len());
    assert forall|k: int| 0 <= k < wm.grid.len() implies m_spec.grid[k] == wm.grid[k] by {
        vstd::arithmetic::div_mod::lemma_fundamental_div_mod(k, h);
        vstd::arithmetic::div_mod::lemma_mod_bound(k, h);
        vstd::arithmetic::div_mod::lemma_div_pos_is_pos(k, h);
        let x = k / h;
        let y = k % h;
        assert(x < w) by (nonlinear_arith)
            requires
                h > 0,
                0 <= y < h,
                0 <= x,
                h * x + y == k,
                k < w * h,
        ;
        assert(x * h + y == k) by (nonlinear_arith)
            requires
                h * x + y == k,
        ;
        assert(ds[x * h + y]@ == spec_cell_at(es, x, y)->Some_0);
        assert(wm.grid[k] == ds[k]@);
    }
    assert(m_spec =~= wm);
    assert(spec_decode(d) == Some(m_spec));
}
pub fn decode(doc: &DocValue) -> (r: Result<World, CorruptData>)
    ensures
        r is Ok <==> spec_decode(doc@) is Some,
        r matches Ok(w) ==> Some(w@) == spec_decode(doc@) && w@.inv(),
        r matches Err(e) ==> doc_fault(doc@, e),
{
    let es = match doc {
        DocValue::Entries(es) => es,
        _ => {
            return Err(CorruptData::NotEntries);
        },
    };
    proof {
        lemma_doc_entries_model(es@);
    }
    let ghost model = doc_entries_model(es@);
    proof {
        assert(doc@ == DocModel::Entries(model));
    }
    let width_key = "width".to_owned();
    let wn: u64 = match lookup(es, &width_key) {
        Some(DocValue::Num(n)) => *n,
        Some(v) => {
            proof {
                assert(!(doc_model(*v) is Num));
            }
            return Err(CorruptData::WidthNotNum);
        },
        None => {
            return Err(CorruptData::MissingWidth);
        },
    };
    let height_key = "height".to_owned();
    let hn: u64 = match lookup(es, &height_key) {
        Some(DocValue::Num(n)) => *n,
        Some(v) => {
            proof {
                assert(!(doc_model(*v) is Num));
            }
            return Err(CorruptData::HeightNotNum);
        },
        None => {
            return Err(CorruptData::MissingHeight);
        },
    };
    let cu_key = "current_uid".to_owned();
    let cn: u64 = match lookup(es, &cu_key) {
        Some(DocValue::Num(n)) => *n,
        Some(v) => {
            proof {
                assert(!(doc_model(*v) is Num));
            }
            return Err(CorruptData::CurrentUidNotNum);
        },
        None => {
            return Err(CorruptData::MissingCurrentUid);
        },
    };
    if wn > u32::MAX as u64 || hn > u32::MAX as u64 {
        return Err(CorruptData::DimensionsTooLarge);
    }
    if cn < 1 || cn > u32::MAX as u64 {
        return Err(CorruptData::CurrentUidOutOfRange);
    }
    proof {
        assert(wn * hn <= u32::MAX * u32::MAX) by (nonlinear_arith)
            requires
                wn <= u32::MAX,
                hn <= u32::MAX,
        ;
    }
    let prod: u64 = wn * hn;
    if prod > usize::MAX as u64 {
        return Err(CorruptData::DimensionsTooLarge);
    }
    let width: u32 = wn as u32;
    let height: u32 = hn as u32;
    let cu: u32 = cn as u32;
    let mut data: Vec<Vec<WObject>> = Vec::new();
    let mut x: u32 = 0;
    if height > 0 {
    while x < width
        invariant
            doc@ == DocModel::Entries(model),
            spec_num_field(model, "width"@) == Some(width as u64),
            spec_num_field(model, "height"@) == Some(height as u64),
            spec_num_field(model, "current_uid"@) == Some(cu as u64),
            model == doc_entries_model(es@),
            cu >= 1,
            width * height <= usize::MAX,
            height >= 1,
            x <= width,
            data@.len() == x * height,
            forall|x2: int, y2: int| 0 <= x2 < x && 0 <= y2 < height ==> (
            #[trigger] spec_cell_at(model, x2, y2)) is Some && data@[x2 * height + y2]@
                == spec_cell_at(model, x2, y2)->Some_0,
            stacks_bounded(data@, cu as nat),
            stacks_unique(data@),
        decreases width - x,
    {
        let col_key = u32_to_dec(x);
        let cold = match lookup(es, &col_key) {
            Some(DocValue::Entries(c)) => c,
            Some(v) => {
                proof {
                    assert(!(doc_model(*v) is Entries));
                    assert(!(spec_cell_at(model, x as int, 0) is Some));
                    lemma_decode_err_cell(doc@, model, width, height, cu, x, 0);
                }
                return Err(CorruptData::ColumnNotEntries { x });
            },
            None => {
                proof {
                    assert(!(spec_cell_at(model, x as int, 0) is Some));
                    lemma_decode_err_cell(doc@, model, width, height, cu, x, 0);
                }
                return Err(CorruptData::MissingColumn { x });
            },
        };
        proof {
            lemma_doc_entries_model(cold@);
            assert(entries_lookup(model, dec_str(x as nat)) == Some(
                DocModel::Entries(doc_entries_model(cold@)),
            ));
        }
        let ghost colm = doc_entries_model(cold@);
        let mut y: u32 = 0;
        while y < height
            invariant
                doc@ == DocModel::Entries(model),
                spec_num_field(model, "width"@) == Some(width as u64),
                spec_num_field(model, "height"@) == Some(height as u64),
                spec_num_field(model, "current_uid"@) == Some(cu as u64),
                model == doc_entries_model(es@),
                cu >= 1,
                width * height <= usize::MAX,
                height >= 1,
                x < width,
                y <= height,
                entries_lookup(model, dec_str(x as nat)) == Some(DocModel::Entries(colm)),
                colm == doc_entries_model(cold@),
                data@.len() == x * height + y,
                forall|x2: int, y2: int|
                    (0 <= x2 < x && 0 <= y2 < height) || (x2 == x && 0 <= y2 < y) ==> (
                    #[trigger] spec_cell_at(model, x2, y2)) is Some && data@[x2 * height + y2]@
                        == spec_cell_at(model, x2, y2)->Some_0,
                stacks_bounded(data@, cu as nat),
                stacks_unique(data@),
            decreases height - y,
        {
            let cell_key = u32_to_dec(y);
            let celld = match lookup(cold, &cell_key) {
                Some(v) => v,
                None => {
                    proof {
                        assert(!(spec_cell_at(model, x as int, y as int) is Some));
                        lemma_decode_err_cell(doc@, model, width, height, cu, x, y);
                    }
                    return Err(CorruptData::MissingCell { x, y });
                },
            };
            let cell = match decode_cell(celld, x, y) {
                Ok(c) => c,
                Err(e) => {
                    proof {
                        assert(!(spec_cell_at(model, x as int, y as int) is Some));
                        lemma_decode_err_cell(doc@, model, width, height, cu, x, y);
                    }
                    return Err(e);
                },
            };
            proof {
                assert(spec_cell_at(model, x as int, y as int) == Some(cell@));
            }
            // identities must be in range and globally unused
            let mut j: usize = 0;
            while j < cell.len()
                invariant
                    doc@ == DocModel::Entries(model),
                    spec_num_field(model, "width"@) == Some(width as u64),
                    spec_num_field(model, "height"@) == Some(height as u64),
                    spec_num_field(model, "current_uid"@) == Some(cu as u64),
                    cu >= 1,
                    width * height <= usize::MAX,
                    x < width,
                    y < height,
                    j <= cell@.len(),
                    data@.len() == x * height + y,
                    spec_cell_at(model, x as int, y as int) == Some(cell@),
                    forall|x2: int, y2: int|
                        (0 <= x2 < x && 0 <= y2 < height) || (x2 == x && 0 <= y2 < y) ==> (
                        #[trigger] spec_cell_at(model, x2, y2)) is Some && data@[x2 * height
                            + y2]@ == spec_cell_at(model, x2, y2)->Some_0,
                    stacks_bounded(data@, cu as nat),
                    stacks_unique(data@),
                    forall|j2: int| 0 <= j2 < j ==> 1 <= (#[trigger] cell@[j2]).uid < cu,
                    forall|j2: int, j3: int| 0 <= j2 < j3 < j ==> (#[trigger] cell@[j2]).uid != (
                    #[trigger] cell@[j3]).uid,
                    forall|k2: int, i2: int, j2: int|
                        0 <= k2 < data@.len() && 0 <= i2 < data@[k2]@.len() && 0 <= j2 < j ==> (
                        #[trigger] data@[k2]@[i2]).uid != (#[trigger] cell@[j2]).uid,
                decreases cell@.len() - j,
            {
                let uid = cell[j].uid;
                if uid < 1 || uid >= cu {
                    proof {
                        lemma_decode_err_slot(doc@, model, width, height, cu, x, y, cell@, j as int);
                    }
                    return Err(CorruptData::UidOutOfRange { uid });
                }
                if stacks_contain_uid(&data, uid) {
                    proof {
                        let (k2, i2) = choose|k2: int, i2: int|
                            0 <= k2 < data@.len() && 0 <= i2 < data@[k2]@.len() && data@[k2]@[i2].uid
                                == uid;
                        lemma_decode_err_duplicate(
                            doc@,
                            model,
                            width,
                            height,
                            cu,
                            x,
                            y,
                            cell@,
                            j as int,
                            k2,
                            i2,
                            data@,
                        );
                    }
                    return Err(CorruptData::DuplicateUid { uid });
                }
                if stack_contains_prefix(&cell, j, uid) {
                    proof {
                        let j2 = choose|j2: int| 0 <= j2 < j && cell@[j2].uid == uid;
                        lemma_decode_err_cell_duplicate(
                            doc@,
                            model,
                            width,
                            height,
                            cu,
                            x,
                            y,
                            cell@,
                            j2,
                            j as int,
                        );
                    }
                    return Err(CorruptData::DuplicateUid { uid });
                }
                j = j + 1;
            }
            let ghost gcell = cell@;
            let ghost ds0 = data@;
            data.push(cell);
            proof {
                lemma_stacks_push(ds0, data@, gcell, cu as nat);
                assert forall|x2: int, y2: int|
                    (0 <= x2 < x && 0 <= y2 < height) || (x2 == x && 0 <= y2 < y + 1) implies (
                #[trigger] spec_cell_at(model, x2, y2)) is Some && data@[x2 * height + y2]@
                    == spec_cell_at(model, x2, y2)->Some_0 by {
                    if x2 == x && y2 == y {
                        assert(x2 * height + y2 == data@.len() - 1);
                    } else {
                        assert(0 <= x2 * height + y2 < data@.len() - 1) by (nonlinear_arith)
                            requires
                                (0 <= x2 < x && 0 <= y2 < height) || (x2 == x && 0 <= y2 < y),
                                0 <= x,
                                0 <= y < height,
                                data@.len() == x * height + y + 1,
                        ;
                        assert(data@[x2 * height + y2] == ds0[x2 * height + y2]);
                    }
                }
            }
            y = y + 1;
        }
        proof {
            assert((x + 1) * height == x * height + height) by (nonlinear_arith);
        }
        x = x + 1;
    }
    }
    proof {
        if height == 0 {
            assert(width * height == 0) by (nonlinear_arith)
                requires
                    height == 0,
            ;
        }
        assert(data@.len() == width * height);
        lemma_decode_final(
            doc@,
            model,
            width,
            height,
            cu,
            data@,
            crate::world::parts_model(width, height, cu, data@),
        );
    }
    let ghost dsg = data@;
    let world = World::from_parts(width, height, cu, data);
    proof {
        assert(world@ == crate::world::parts_model(width, height, cu, dsg));
    }
    Ok(world)
}

/// Serializes a world into its document form.
pub fn encode(w: &World) -> (d: DocValue)
    requires
        w@.inv(),
    ensures
        d@ == spec_encode(w@),
{
    let width = w.width();
    let height = w.height();
    let mut top: Vec<(String, DocValue)> = Vec::new();
    top.push(("width".to_owned(), DocValue::Num(width as u64)));
    top.push(("height".to_owned(), DocValue::Num(height as u64)));
    top.push(("current_uid".to_owned(), DocValue::Num(w.current_uid_of() as u64)));
    let mut x: u32 = 0;
    while x < width
        invariant
            w@.inv(),
            width == w@.width,
            height == w@.height,
            x <= width,
            top@.len() == 3 + x,
            top@[0].0@ == "width"@ && doc_model(top@[0].1) == DocModel::Num(w@.width as u64),
            top@[1].0@ == "height"@ && doc_model(top@[1].1) == DocModel::Num(w@.height as u64),
            top@[2].0@ == "current_uid"@ && doc_model(top@[2].1) == DocModel::Num(
                w@.current_uid as u64,
            ),
            forall|j: int| 0 <= j < x ==> (#[trigger] top@[3 + j]).0@ == dec_str(j as nat)
                && doc_model(top@[3 + j].1) == spec_col_doc(w@, j),
        decreases width - x,
    {
        let mut col: Vec<(String, DocValue)> = Vec::new();
        let mut y: u32 = 0;
        while y < height
            invariant
                w@.inv(),
                width == w@.width,
                height == w@.height,
                x < width,
                y <= height,
                col@.len() == y,
                forall|j: int| 0 <= j < y ==> (#[trigger] col@[j]).0@ == dec_str(j as nat)
                    && doc_model(col@[j].1) == spec_cell_doc(w@.cell(x as int, j)),
            decreases height - y,
        {
            let cellv = w.cell_ref(x, y);
            let mut items: Vec<DocValue> = Vec::new();
            let mut k: usize = 0;
            while k < cellv.len()
                invariant
                    cellv@ == w@.cell(x as int, y as int),
                    k <= cellv@.len(),
                    items@.len() == k,
                    forall|j: int| 0 <= j < k ==> doc_model(#[trigger] items@[j]) == spec_obj_doc(
                        cellv@[j],
                    ),
                decreases cellv@.len() - k,
            {
                let o = cellv[k];
                let mut oe: Vec<(String, DocValue)> = Vec::new();
                oe.push(("uid".to_owned(), DocValue::Num(o.uid as u64)));
                oe.push(("obj".to_owned(), DocValue::Text(crate::tile::tag_of(o.obj))));
                proof {
                    lemma_doc_entries_model(oe@);
                    assert(doc_entries_model(oe@) =~= seq![
                        ("uid"@, DocModel::Num(o.uid as u64)),
                        ("obj"@, DocModel::Text(spec_tag(o.obj))),
                    ]);
                }
                items.push(DocValue::Entries(oe));
                k = k + 1;
            }
            proof {
                lemma_doc_list_model(items@);
                assert(doc_list_model(items@) =~= cellv@.map_values(
                    |o: WObject| spec_obj_doc(o),
                ));
            }
            col.push((u32_to_dec(y), DocValue::List(items)));
            y = y + 1;
        }
        proof {
            lemma_doc_entries_model(col@);
            assert(doc_entries_model(col@) =~= Seq::new(
                w@.height,
                |j: int| (dec_str(j as nat), spec_cell_doc(w@.cell(x as int, j))),
            ));
        }
        top.push((u32_to_dec(x), DocValue::Entries(col)));
        x = x + 1;
    }
    proof {
        lemma_doc_entries_model(top@);
        let target = seq![
            ("width"@, DocModel::Num(w@.width as u64)),
            ("height"@, DocModel::Num(w@.height as u64)),
            ("current_uid"@, DocModel::Num(w@.current_uid as u64)),
        ] + Seq::new(w@.width, |j: int| (dec_str(j as nat), spec_col_doc(w@, j)));
        assert forall|i: int| 0 <= i < target.len() implies doc_entries_model(top@)[i]
            == target[i] by {
            if i >= 3 {
                let j = i - 3;
                assert(top@[3 + j].0@ == dec_str(j as nat));
                assert(doc_model(top@[3 + j].1) == spec_col_doc(w@, j));
            }
        }
        assert(doc_entries_model(top@) =~= target);
    }
    DocValue::Entries(top)
}

/// The typed decode failures: which structural expectation of the document
/// was violated, and where.
#[derive(Clone, Copy, PartialEq, Eq, Structural, Debug)]
#[allow(inconsistent_fields)]
pub enum CorruptData {
    /// The document is not a key-value map.
    NotEntries,
    MissingWidth,
    WidthNotNum,
    MissingHeight,
    HeightNotNum,
    MissingCurrentUid,
    CurrentUidNotNum,
    /// A dimension exceeds what a grid can hold.
    DimensionsTooLarge,
    CurrentUidOutOfRange,
    MissingColumn { x: u32 },
    ColumnNotEntries { x: u32 },
    MissingCell { x: u32, y: u32 },
    CellNotList { x: u32, y: u32 },
    ObjectNotEntries { x: u32, y: u32 },
    ObjectMissingUid { x: u32, y: u32 },
    ObjectUidNotNum { x: u32, y: u32 },
    ObjectUidTooLarge { x: u32, y: u32 },
    ObjectMissingKind { x: u32, y: u32 },
    ObjectKindNotText { x: u32, y: u32 },
    UnknownKind { x: u32, y: u32 },
    /// An object's identity lies outside `[1, current_uid)`.
    UidOutOfRange { uid: u32 },
    /// Two objects share one identity.
    DuplicateUid { uid: u32 },
}

/// The number under `key`, if the map holds one there.
pub open spec fn spec_num_field(es: Seq<(Seq<char>, DocModel)>, key: Seq<char>) -> Option<u64> {
    match entries_lookup(es, key) {
        Some(DocModel::Num(n)) => Some(n),
        _ => None,
    }
}

/// The object a document node denotes: a map with a numeric `uid` fitting
/// `u32` and a known kind tag under `obj`.
pub open spec fn spec_obj_of(d: DocModel) -> Option<WObject> {
    match d {
        DocModel::Entries(es) => match (entries_lookup(es, "uid"@), entries_lookup(es, "obj"@)) {
            (Some(DocModel::Num(u)), Some(DocModel::Text(t))) => {
                if u <= u32::MAX && spec_tile_of_tag(t) is Some {
                    Some(WObject { uid: u as u32, obj: spec_tile_of_tag(t)->Some_0 })
                } else {
                    None
                }
            },
            _ => None,
        },
        _ => None,
    }
}

/// The object stack a document node denotes: a list whose every element
/// denotes an object.
pub open spec fn spec_cell_of_doc(d: DocModel) -> Option<Seq<WObject>> {
    match d {
        DocModel::List(items) => {
            if forall|i: int| 0 <= i < items.len() ==> (#[trigger] spec_obj_of(items[i]))
                is Some {
                Some(Seq::new(items.len(), |i: int| spec_obj_of(items[i])->Some_0))
            } else {
                None
            }
        },
        _ => None,
    }
}

/// The object stack of cell `(x, y)`: found under the decimal column key,
/// then the decimal cell key.
pub open spec fn spec_cell_at(es: Seq<(Seq<char>, DocModel)>, x: int, y: int) -> Option<
    Seq<WObject>,
> {
    match entries_lookup(es, dec_str(x as nat)) {
        Some(DocModel::Entries(col)) => match entries_lookup(col, dec_str(y as nat)) {
            Some(cd) => spec_cell_of_doc(cd),
            None => None,
        },
        _ => None,
    }
}

/// Whether `e` truly diagnoses the given defect of an object node at cell
/// `(x, y)`: a shape the node does not have, a key it lacks, or a tag it
/// carries that names no kind.
pub open spec fn obj_fault(d: DocModel, e: CorruptData, x: u32, y: u32) -> bool {
    match e {
        CorruptData::ObjectNotEntries { x: ex, y: ey } => ex == x && ey == y && !(d is Entries),
        CorruptData::ObjectMissingUid { x: ex, y: ey } => {
            &&& ex == x
            &&& ey == y
            &&& d matches DocModel::Entries(oes) && entries_lookup(oes, "uid"@) is None
        },
        CorruptData::ObjectUidNotNum { x: ex, y: ey } => {
            &&& ex == x
            &&& ey == y
            &&& d matches DocModel::Entries(oes) && match entries_lookup(oes, "uid"@) {
                Some(v) => !(v is Num),
                None => false,
            }
        },
        CorruptData::ObjectUidTooLarge { x: ex, y: ey } => {
            &&& ex == x
            &&& ey == y
            &&& d matches DocModel::Entries(oes) && match entries_lookup(oes, "uid"@) {
                Some(DocModel::Num(u)) => u > u32::MAX,
                _ => false,
            }
        },
        CorruptData::ObjectMissingKind { x: ex, y: ey } => {
            &&& ex == x
            &&& ey == y
            &&& d matches DocModel::Entries(oes) && entries_lookup(oes, "obj"@) is None
        },
        CorruptData::ObjectKindNotText { x: ex, y: ey } => {
            &&& ex == x
            &&& ey == y
            &&& d matches DocModel::Entries(oes) && match entries_lookup(oes, "obj"@) {
                Some(v) => !(v is Text),
                None => false,
            }
        },
        CorruptData::UnknownKind { x: ex, y: ey } => {
            &&& ex == x
            &&& ey == y
            &&& d matches DocModel::Entries(oes) && match entries_lookup(oes, "obj"@) {
                Some(DocModel::Text(t)) => spec_tile_of_tag(t) is None,
                _ => false,
            }
        },
        _ => false,
    }
}

/// Whether `e` truly diagnoses the given defect of the cell node at
/// `(x, y)`: not a list, or a list holding a defective object node.
pub open spec fn cell_fault(d: DocModel, e: CorruptData, x: u32, y: u32) -> bool {
    match e {
        CorruptData::CellNotList { x: ex, y: ey } => ex == x && ey == y && !(d is List),
        _ => d matches DocModel::List(items) && exists|i: int|
            0 <= i < items.len() && obj_fault(#[trigger] items[i], e, x, y),
    }
}

/// The document node holding the object list of cell `(x, y)`, if the
/// column and cell lookups both succeed.
pub open spec fn cell_node(es: Seq<(Seq<char>, DocModel)>, x: u32, y: u32) -> Option<DocModel> {
    match entries_lookup(es, dec_str(x as nat)) {
        Some(DocModel::Entries(col)) => entries_lookup(col, dec_str(y as nat)),
        _ => None,
    }
}

/// The identity stored at stack position `i` of the decoded cell `(x, y)`,
/// if that cell decodes and the position exists.
pub open spec fn slot_uid(es: Seq<(Seq<char>, DocModel)>, x: int, y: int, i: int) -> Option<u32> {
    match spec_cell_at(es, x, y) {
        Some(c) => if 0 <= i < c.len() {
            Some(c[i].uid)
        } else {
            None
        },
        None => None,
    }
}

/// Whether `e` truly diagnoses a defect of the whole document: whatever
/// error the decoder reports, the document really violates the named
/// expectation at the named place.
pub open spec fn doc_fault(d: DocModel, e: CorruptData) -> bool {
    match e {
        CorruptData::NotEntries => !(d is Entries),
        CorruptData::MissingWidth => d matches DocModel::Entries(es) && entries_lookup(
            es,
            "width"@,
        ) is None,
        CorruptData::WidthNotNum => d matches DocModel::Entries(es) && match entries_lookup(
            es,
            "width"@,
        ) {
            Some(v) => !(v is Num),
            None => false,
        },
        CorruptData::MissingHeight => d matches DocModel::Entries(es) && entries_lookup(
            es,
            "height"@,
        ) is None,
        CorruptData::HeightNotNum => d matches DocModel::Entries(es) && match entries_lookup(
            es,
            "height"@,
        ) {
            Some(v) => !(v is Num),
            None => false,
        },
        CorruptData::MissingCurrentUid => d matches DocModel::Entries(es) && entries_lookup(
            es,
            "current_uid"@,
        ) is None,
        CorruptData::CurrentUidNotNum => d matches DocModel::Entries(es) && match entries_lookup(
            es,
            "current_uid"@,
        ) {
            Some(v) => !(v is Num),
            None => false,
        },
        CorruptData::DimensionsTooLarge => d matches DocModel::Entries(es) && match (
            spec_num_field(es, "width"@),
            spec_num_field(es, "height"@),
        ) {
            (Some(wn), Some(hn)) => wn > u32::MAX || hn > u32::MAX || wn * hn > usize::MAX,
            _ => false,
        },
        CorruptData::CurrentUidOutOfRange => d matches DocModel::Entries(es) && match
            spec_num_field(es, "current_uid"@) {
            Some(cn) => cn < 1 || cn > u32::MAX,
            None => false,
        },
        CorruptData::MissingColumn { x } => d matches DocModel::Entries(es) && entries_lookup(
            es,
            dec_str(x as nat),
        ) is None,
        CorruptData::ColumnNotEntries { x } => d matches DocModel::Entries(es) && match
            entries_lookup(es, dec_str(x as nat)) {
            Some(v) => !(v is Entries),
            None => false,
        },
        CorruptData::MissingCell { x, y } => d matches DocModel::Entries(es) && match
            entries_lookup(es, dec_str(x as nat)) {
            Some(DocModel::Entries(col)) => entries_lookup(col, dec_str(y as nat)) is None,
            _ => false,
        },
        CorruptData::CellNotList { x, y } => cell_level_fault(d, e, x, y),
        CorruptData::ObjectNotEntries { x, y } => cell_level_fault(d, e, x, y),
        CorruptData::ObjectMissingUid { x, y } => cell_level_fault(d, e, x, y),
        CorruptData::ObjectUidNotNum { x, y } => cell_level_fault(d, e, x, y),
        CorruptData::ObjectUidTooLarge { x, y } => cell_level_fault(d, e, x, y),
        CorruptData::ObjectMissingKind { x, y } => cell_level_fault(d, e, x, y),
        CorruptData::ObjectKindNotText { x, y } => cell_level_fault(d, e, x, y),
        CorruptData::UnknownKind { x, y } => cell_level_fault(d, e, x, y),
        CorruptData::UidOutOfRange { uid } => d matches DocModel::Entries(es) && match
            spec_num_field(es, "current_uid"@) {
            Some(cn) => exists|x: int, y: int, i: int| #[trigger] slot_uid(es, x, y, i) == Some(
                uid,
            ) && (uid < 1 || uid >= cn),
            None => false,
        },
        CorruptData::DuplicateUid { uid } => d matches DocModel::Entries(es) && exists|
            xa: int,
            ya: int,
            ia: int,
            xb: int,
            yb: int,
            ib: int,
        |
            !(xa == xb && ya == yb && ia == ib) && #[trigger] slot_uid(es, xa, ya, ia) == Some(
                uid,
            ) && #[trigger] slot_uid(es, xb, yb, ib) == Some(uid),
    }
}

/// Whether `e` truly diagnoses a defect of the cell node reached through
/// the decimal column and cell keys that `e` names.
pub open spec fn cell_level_fault(d: DocModel, e: CorruptData, x: u32, y: u32) -> bool {
    d matches DocModel::Entries(es) && match cell_node(es, x, y) {
        Some(cd) => cell_fault(cd, e, x, y),
        None => false,
    }
}

/// The world a document denotes, if it is well-formed: dimensions and
/// identity counter in range, a decodable stack for every in-range cell,
/// and identities that respect the world invariant.
pub open spec fn spec_decode(d: DocModel) -> Option<WorldModel> {
    match d {
        DocModel::Entries(es) => {
            match (spec_num_field(es, "width"@), spec_num_field(es, "height"@), spec_num_field(
                es,
                "current_uid"@,
            )) {
                (Some(wn), Some(hn), Some(cn)) => {
                    if wn <= u32::MAX && hn <= u32::MAX && 1 <= cn <= u32::MAX && wn * hn
                        <= usize::MAX {
                        if forall|x: int, y: int| 0 <= x < wn && 0 <= y < hn ==> (
                        #[trigger] spec_cell_at(es, x, y)) is Some {
                            let m = WorldModel {
                                width: wn as nat,
                                height: hn as nat,
                                current_uid: cn as nat,
                                grid: Seq::new(
                                    (wn * hn) as nat,
                                    |k: int| spec_cell_at(
                                        es,
                                        k / (hn as int),
                                        k % (hn as int),
                                    )->Some_0,
                                ),
                            };
                            if m.uids_bounded() && m.uids_unique() {
                                Some(m)
                            } else {
                                None
                            }
                        } else {
                            None
                        }
                    } else {
                        None
                    }
                },
                _ => None,
            }
        },
        _ => None,
    }
}

/// Finds the value under the first entry carrying `key`, if any.
fn lookup<'a>(es: &'a Vec<(String, DocValue)>, key: &String) -> (r: Option<&'a DocValue>)
    ensures
        r is Some <==> entries_lookup(doc_entries_model(es@), key@) is Some,
        r matches Some(v) ==> Some(doc_model(*v)) == entries_lookup(doc_entries_model(es@), key@),
{
    proof {
        lemma_doc_entries_model(es@);
    }
    let ghost model = doc_entries_model(es@);
    let mut i: usize = 0;
    while i < es.len()
        invariant
            i <= es@.len(),
            model == doc_entries_model(es@),
            model.len() == es@.len(),
            forall|j: int| 0 <= j < es@.len() ==> #[trigger] model[j] == (
                es@[j].0@,
                doc_model(es@[j].1),
            ),
            forall|j: int| 0 <= j < i ==> (#[trigger] model[j]).0 != key@,
        decreases es@.len() - i,
    {
        let e = &es[i];
        if *key == e.0 {
            proof {
                lemma_lookup_skip(model, key@, i as int);
                assert(model.skip(i as int)[0] == model[i as int]);
                assert(model.skip(i as int).len() > 0);
            }
            return Some(&e.1);
        }
        i = i + 1;
    }
    proof {
        lemma_lookup_skip(model, key@, i as int);
        assert(model.skip(i as int).len() == 0);
    }
    None
}

} // verus!
