//! Compiled game data (`.rgd`): a `KEYS` dictionary of hashed names and an
//! `AEGD` node tree whose values are typed by code.
use vstd::prelude::*;

use std::collections::HashMap;

use crate::container::{view_chunk, Chunk, Chunky, SpecBody, SpecChunk};
use crate::le::{le32, read_u32};
use crate::raw_list::{
    list_at, read_list_at, view_list_result, RawListError, RawNode, RawValue, SpecNode, SpecValue,
};
use crate::records::{lossy_records, parse_key_table, view_hashed, KeyTable};
use crate::reflect::tag;
use crate::text::{decimal, decimal_string, lossy_string, lossy_string16, utf16_text, utf8_text};
use crate::walk::{data_list, view_refs};

verus! {

/// The type of a game-data value, as its code on disk says.
#[derive(Debug, Clone, Copy, PartialEq, Eq)]
pub enum RGDDataType {
    Float,
    Int,
    Boolean,
    CString,
    LocString,
    List,
    List2,
}

impl RGDDataType {
    pub open spec fn spec_code(self) -> i32 {
        match self {
            RGDDataType::Float => 0,
            RGDDataType::Int => 1,
            RGDDataType::Boolean => 2,
            RGDDataType::CString => 3,
            RGDDataType::LocString => 4,
            RGDDataType::List => 100,
            RGDDataType::List2 => 101,
        }
    }

    pub open spec fn spec_name(self) -> Seq<char> {
        match self {
            RGDDataType::Float => "Float"@,
            RGDDataType::Int => "Int"@,
            RGDDataType::Boolean => "Boolean"@,
            RGDDataType::CString => "CString"@,
            RGDDataType::LocString => "LocString"@,
            RGDDataType::List => "List"@,
            RGDDataType::List2 => "List"@,
        }
    }

    /// The type's name in exported documents; both list types are `List`.
    pub fn name(&self) -> (r: &'static str)
        ensures
            r@ == self.spec_name(),
    {
        match self {
            RGDDataType::Float => "Float",
            RGDDataType::Int => "Int",
            RGDDataType::Boolean => "Boolean",
            RGDDataType::CString => "CString",
            RGDDataType::LocString => "LocString",
            RGDDataType::List => "List",
            RGDDataType::List2 => "List",
        }
    }

    /// The type's code on disk.
    pub fn code(self) -> (r: i32)
        ensures
            r == self.spec_code(),
    {
        match self {
            RGDDataType::Float => 0,
            RGDDataType::Int => 1,
            RGDDataType::Boolean => 2,
            RGDDataType::CString => 3,
            RGDDataType::LocString => 4,
            RGDDataType::List => 100,
            RGDDataType::List2 => 101,
        }
    }

    /// The type with this code, if any.
    pub fn from_code(code: i32) -> (r: Option<Self>)
        ensures
            match r {
                Some(t) => t.spec_code() == code,
                None => forall|t: RGDDataType| t.spec_code() != code,
            },
    {
        if code == 0 {
            Some(RGDDataType::Float)
        } else if code == 1 {
            Some(RGDDataType::Int)
        } else if code == 2 {
            Some(RGDDataType::Boolean)
        } else if code == 3 {
            Some(RGDDataType::CString)
        } else if code == 4 {
            Some(RGDDataType::LocString)
        } else if code == 100 {
            Some(RGDDataType::List)
        } else if code == 101 {
            Some(RGDDataType::List2)
        } else {
            None
        }
    }
}

/// Why game data could not be read.
#[derive(Debug, Clone, Copy, PartialEq, Eq)]
pub enum RelicGameDataError {
    /// A table, an index or a value runs past the end of its chunk.
    UnexpectedEof,
    MissingDataKeysChunk,
    MultipleDataKeysChunks,
    MissingDataAegdChunk,
    MultipleDataAegdChunks,
    UnknownDataType(i32),
    InvalidDataOffset { key: u64, offset: i32 },
    /// A list that contains itself.
    TooDeep,
}

pub struct RelicGameData {}

/// A game-data value; a float is kept as its IEEE-754 bits.
#[derive(Debug, PartialEq)]
pub enum GameValue {
    Float(u32),
    Int(i32),
    Boolean(bool),
    CString(String),
    LocString(String),
    List(Vec<GameNode>),
    List2(Vec<GameNode>),
}

/// One keyed game-data node.
#[derive(Debug, PartialEq)]
pub struct GameNode {
    pub key: String,
    pub value: GameValue,
}

impl GameValue {
    /// The type of the value.
    pub fn data_type(&self) -> (r: RGDDataType)
        ensures
            r == spec_value_type(*self),
    {
        match self {
            GameValue::Float(_) => RGDDataType::Float,
            GameValue::Int(_) => RGDDataType::Int,
            GameValue::Boolean(_) => RGDDataType::Boolean,
            GameValue::CString(_) => RGDDataType::CString,
            GameValue::LocString(_) => RGDDataType::LocString,
            GameValue::List(_) => RGDDataType::List,
            GameValue::List2(_) => RGDDataType::List2,
        }
    }
}

pub open spec fn spec_value_type(v: GameValue) -> RGDDataType {
    match v {
        GameValue::Float(_) => RGDDataType::Float,
        GameValue::Int(_) => RGDDataType::Int,
        GameValue::Boolean(_) => RGDDataType::Boolean,
        GameValue::CString(_) => RGDDataType::CString,
        GameValue::LocString(_) => RGDDataType::LocString,
        GameValue::List(_) => RGDDataType::List,
        GameValue::List2(_) => RGDDataType::List2,
    }
}

// ---------------------------------------------------------------------------
// Mathematical values
// ---------------------------------------------------------------------------
pub enum SpecGameValue {
    Float(u32),
    Int(i32),
    Boolean(bool),
    CString(Seq<char>),
    LocString(Seq<char>),
    List(Seq<SpecGameNode>),
    List2(Seq<SpecGameNode>),
}

pub struct SpecGameNode {
    pub key: Seq<char>,
    pub value: SpecGameValue,
}

pub open spec fn view_game_value(v: GameValue) -> SpecGameValue
    decreases v,
{
    match v {
        GameValue::Float(b) => SpecGameValue::Float(b),
        GameValue::Int(i) => SpecGameValue::Int(i),
        GameValue::Boolean(b) => SpecGameValue::Boolean(b),
        GameValue::CString(s) => SpecGameValue::CString(s@),
        GameValue::LocString(s) => SpecGameValue::LocString(s@),
        GameValue::List(ns) => SpecGameValue::List(view_game_nodes(ns@)),
        GameValue::List2(ns) => SpecGameValue::List2(view_game_nodes(ns@)),
    }
}

pub open spec fn view_game_node(n: GameNode) -> SpecGameNode
    decreases n,
{
    SpecGameNode { key: n.key@, value: view_game_value(n.value) }
}

pub open spec fn view_game_nodes(s: Seq<GameNode>) -> Seq<SpecGameNode>
    decreases s,
{
    if s.len() == 0 {
        Seq::empty()
    } else {
        view_game_nodes(s.subrange(0, s.len() - 1)).push(view_game_node(s[s.len() - 1]))
    }
}

// ---------------------------------------------------------------------------
// Keys
// ---------------------------------------------------------------------------
/// The dictionary of a key table: the first name of each hash.
pub open spec fn first_names(v: Seq<(u64, Seq<char>)>) -> Map<u64, Seq<char>>
    decreases v.len(),
{
    if v.len() == 0 {
        Map::empty()
    } else {
        let m = first_names(v.drop_last());
        if m.contains_key(v.last().0) {
            m
        } else {
            m.insert(v.last().0, v.last().1)
        }
    }
}

pub open spec fn view_keys(m: Map<u64, String>) -> Map<u64, Seq<char>> {
    m.map_values(|s: String| s@)
}

/// The name of a key hash: its dictionary entry, else `unknown_` and the
/// hash in decimal.
pub open spec fn key_name(keys: Map<u64, Seq<char>>, k: u64) -> Seq<char> {
    if keys.contains_key(k) {
        keys[k]
    } else {
        "unknown_"@ + decimal(k as nat)
    }
}

impl RelicGameData {
    /// The dictionary of a `KEYS` chunk body: hash to name, the first name of
    /// a hash winning.
    pub fn parse_keys(data: &[u8]) -> (r: Result<HashMap<u64, String>, RelicGameDataError>)
        ensures
            match parse_key_table(data@) {
                None => r == Err::<HashMap<u64, String>, RelicGameDataError>(
                    RelicGameDataError::UnexpectedEof,
                ),
                Some(v) => r matches Ok(m) && view_keys(m@) == first_names(lossy_records(v)),
            },
    {
        broadcast use vstd::std_specs::hash::group_hash_axioms;

        let table: KeyTable = match KeyTable::read(data) {
            Some(t) => t,
            None => {
                return Err(RelicGameDataError::UnexpectedEof);
            },
        };
        let ghost entries = view_hashed(table.keys@);
        let mut map: HashMap<u64, String> = HashMap::new();
        let mut i: usize = 0;
        proof {
            assert(entries.subrange(0, 0) =~= Seq::<(u64, Seq<char>)>::empty());
            assert(view_keys(map@) =~= first_names(entries.subrange(0, 0)));
        }
        while i < table.keys.len()
            invariant
                i <= table.keys@.len(),
                entries == view_hashed(table.keys@),
                view_keys(map@) == first_names(entries.subrange(0, i as int)),
            decreases table.keys.len() - i,
        {
            let hash: u64 = table.keys[i].hash;
            proof {
                let t = entries.subrange(0, i + 1);
                assert(t.drop_last() =~= entries.subrange(0, i as int));
                assert(t.last() == (hash, table.keys@[i as int].value@));
            }
            if !map.contains_key(&hash) {
                let value: String = table.keys[i].value.clone();
                let ghost before = view_keys(map@);
                map.insert(hash, value);
                proof {
                    assert(view_keys(map@) =~= before.insert(hash, value@));
                }
            }
            i += 1;
        }
        proof {
            assert(entries.subrange(0, i as int) =~= entries);
        }
        Ok(map)
    }
}

fn resolve_key(key: u64, keys: &HashMap<u64, String>) -> (r: String)
    ensures
        r@ == key_name(view_keys(keys@), key),
{
    broadcast use vstd::std_specs::hash::group_hash_axioms;

    match keys.get(&key) {
        Some(name) => name.clone(),
        None => {
            let mut text: String = "unknown_".to_string();
            let digits: String = decimal_string(key);
            text.append(digits.as_str());
            text
        },
    }
}

} // verus!

verus! {

// ---------------------------------------------------------------------------
// Values
// ---------------------------------------------------------------------------
/// The game value a raw value stands for, keys resolved by name.
pub open spec fn game_value(v: SpecValue, keys: Map<u64, Seq<char>>) -> SpecGameValue
    decreases v,
{
    match v {
        SpecValue::FourBytes(t, b) => if t == 0 {
            SpecGameValue::Float(le32(b, 0) as u32)
        } else {
            SpecGameValue::Int((le32(b, 0) as u32) as i32)
        },
        SpecValue::Bool(x) => SpecGameValue::Boolean(x != 0),
        SpecValue::CString(s) => SpecGameValue::CString(utf8_text(s)),
        SpecValue::LocString(u) => SpecGameValue::LocString(utf16_text(u)),
        SpecValue::List(t, ch) => if t == 100 {
            SpecGameValue::List(game_nodes(ch, keys))
        } else {
            SpecGameValue::List2(game_nodes(ch, keys))
        },
    }
}

pub open spec fn game_nodes(ns: Seq<SpecNode>, keys: Map<u64, Seq<char>>) -> Seq<SpecGameNode>
    decreases ns,
{
    if ns.len() == 0 {
        Seq::empty()
    } else {
        let n = ns[ns.len() - 1];
        game_nodes(ns.subrange(0, ns.len() - 1), keys).push(
            SpecGameNode { key: key_name(keys, n.key_hash), value: game_value(n.value, keys) },
        )
    }
}

pub open spec fn game_error(e: RawListError) -> RelicGameDataError {
    match e {
        RawListError::UnexpectedEof => RelicGameDataError::UnexpectedEof,
        RawListError::OffsetOverflow { key_hash, offset } => RelicGameDataError::InvalidDataOffset {
            key: key_hash,
            offset,
        },
        RawListError::UnsupportedType { data_type } => RelicGameDataError::UnknownDataType(
            data_type,
        ),
        RawListError::TooDeep => RelicGameDataError::TooDeep,
    }
}

/// The node tree of an `AEGD` body: a `u32` word, then the node list.
pub open spec fn spec_parse_aegd(data: Seq<u8>, keys: Map<u64, Seq<char>>) -> Result<
    Seq<SpecGameNode>,
    RelicGameDataError,
> {
    if data.len() < 4 {
        Err(RelicGameDataError::UnexpectedEof)
    } else {
        match list_at(data, 4, data.len()) {
            Err(e) => Err(game_error(e)),
            Ok(ns) => Ok(game_nodes(ns, keys)),
        }
    }
}

fn convert_error(e: RawListError) -> (r: RelicGameDataError)
    ensures
        r == game_error(e),
{
    match e {
        RawListError::UnexpectedEof => RelicGameDataError::UnexpectedEof,
        RawListError::OffsetOverflow { key_hash, offset } => RelicGameDataError::InvalidDataOffset {
            key: key_hash,
            offset,
        },
        RawListError::UnsupportedType { data_type } => RelicGameDataError::UnknownDataType(
            data_type,
        ),
        RawListError::TooDeep => RelicGameDataError::TooDeep,
    }
}

fn convert_value(v: &RawValue, keys: &HashMap<u64, String>) -> (r: GameValue)
    ensures
        view_game_value(r) == game_value(crate::raw_list::view_value(*v), view_keys(keys@)),
    decreases v,
{
    match v {
        RawValue::FourBytes { data_type, bytes } => {
            let bits: u32 = bytes[0] as u32 + (bytes[1] as u32) * 256 + (bytes[2] as u32) * 65536
                + (bytes[3] as u32) * 16777216;
            if *data_type == 0 {
                GameValue::Float(bits)
            } else {
                GameValue::Int(#[verifier::truncate] (bits as i32))
            }
        },
        RawValue::Bool(x) => GameValue::Boolean(*x != 0),
        RawValue::CString(s) => GameValue::CString(lossy_string(s.as_slice())),
        RawValue::LocString(u) => GameValue::LocString(lossy_string16(u.as_slice())),
        RawValue::List { data_type, children } => {
            proof {
                assert(decreases_to!(*v => v->children));
                assert(decreases_to!(v->children => children@));
            }
            let nodes: Vec<GameNode> = convert_nodes(children.as_slice(), keys);
            if *data_type == 100 {
                GameValue::List(nodes)
            } else {
                GameValue::List2(nodes)
            }
        },
    }
}

fn convert_nodes(raw: &[RawNode], keys: &HashMap<u64, String>) -> (r: Vec<GameNode>)
    ensures
        view_game_nodes(r@) == game_nodes(crate::raw_list::view_nodes(raw@), view_keys(keys@)),
    decreases raw@,
{
    let ghost ns = crate::raw_list::view_nodes(raw@);
    let ghost ks = view_keys(keys@);
    let mut out: Vec<GameNode> = Vec::new();
    let mut i: usize = 0;
    proof {
        crate::raw_list::lemma_view_nodes_len(raw@);
        assert(ns.subrange(0, 0) =~= Seq::<SpecNode>::empty());
        assert(view_game_nodes(out@) =~= Seq::<SpecGameNode>::empty());
    }
    while i < raw.len()
        invariant
            i <= raw@.len(),
            ns == crate::raw_list::view_nodes(raw@),
            ns.len() == raw@.len(),
            ks == view_keys(keys@),
            view_game_nodes(out@) == game_nodes(ns.subrange(0, i as int), ks),
        decreases raw.len() - i,
    {
        let node: &RawNode = &raw[i];
        proof {
            crate::raw_list::lemma_view_nodes_index(raw@, i as int);
            assert(decreases_to!(raw@ => raw@[i as int]));
            assert(decreases_to!(raw@[i as int] => raw@[i as int].value));
            let t = ns.subrange(0, i + 1);
            assert(t.subrange(0, i as int) =~= ns.subrange(0, i as int));
            assert(t[i as int] == crate::raw_list::view_node(*node));
        }
        let key: String = resolve_key(node.key_hash, keys);
        let value: GameValue = convert_value(&node.value, keys);
        let g = GameNode { key, value };
        let ghost before = out@;
        out.push(g);
        proof {
            let t = out@;
            assert(t.subrange(0, t.len() - 1) =~= before);
            assert(t[t.len() - 1] == g);
            assert(view_game_nodes(t) == view_game_nodes(before).push(view_game_node(g)));
            let sn = ns[i as int];
            assert(view_game_node(g) == SpecGameNode {
                key: key_name(ks, sn.key_hash),
                value: game_value(sn.value, ks),
            });
            let u = ns.subrange(0, i + 1);
            assert(game_nodes(u, ks) == game_nodes(u.subrange(0, u.len() - 1), ks).push(
                SpecGameNode { key: key_name(ks, u[u.len() - 1].key_hash), value: game_value(u[u.len() - 1].value, ks) },
            ));
        }
        i += 1;
    }
    proof {
        assert(ns.subrange(0, i as int) =~= ns);
    }
    out
}

fn parse_aegd(data: &[u8], keys: &HashMap<u64, String>) -> (r: Result<Vec<GameNode>, RelicGameDataError>)
    ensures
        match spec_parse_aegd(data@, view_keys(keys@)) {
            Err(e) => r == Err::<Vec<GameNode>, RelicGameDataError>(e),
            Ok(ns) => r matches Ok(v) && view_game_nodes(v@) == ns,
        },
{
    if data.len() < 4 {
        return Err(RelicGameDataError::UnexpectedEof);
    }
    match read_list_at(data, 4, data.len()) {
        Err(e) => Err(convert_error(e)),
        Ok(raw) => Ok(convert_nodes(raw.as_slice(), keys)),
    }
}

} // verus!

verus! {

pub open spec fn keys_tag() -> Seq<u8> {
    tag(0x4b, 0x45, 0x59, 0x53)
}

pub open spec fn aegd_name() -> Seq<u8> {
    tag(0x41, 0x45, 0x47, 0x44)
}

/// The `KEYS` and `AEGD` bodies among the data chunks, in order; a second
/// one of either is refused when it is met.
pub open spec fn find_tables(cs: Seq<SpecChunk>) -> Result<
    (Option<Seq<u8>>, Option<Seq<u8>>),
    RelicGameDataError,
>
    decreases cs.len(),
{
    if cs.len() == 0 {
        Ok((None, None))
    } else {
        match find_tables(cs.drop_last()) {
            Err(e) => Err(e),
            Ok((k, a)) => {
                let c = cs.last();
                match c.body {
                    SpecBody::Data(d) => if c.name == keys_tag() {
                        if k is Some {
                            Err(RelicGameDataError::MultipleDataKeysChunks)
                        } else {
                            Ok((Some(d), a))
                        }
                    } else if c.name == aegd_name() {
                        if a is Some {
                            Err(RelicGameDataError::MultipleDataAegdChunks)
                        } else {
                            Ok((k, Some(d)))
                        }
                    } else {
                        Ok((k, a))
                    },
                    SpecBody::Folder(_) => Ok((k, a)),
                }
            },
        }
    }
}

/// The game data of a container: its `KEYS` dictionary resolves the key
/// hashes of its `AEGD` node tree.
pub open spec fn spec_parse_rgd(chunks: Seq<SpecChunk>) -> Result<Seq<SpecGameNode>, RelicGameDataError> {
    match find_tables(data_list(chunks)) {
        Err(e) => Err(e),
        Ok((None, _)) => Err(RelicGameDataError::MissingDataKeysChunk),
        Ok((Some(_), None)) => Err(RelicGameDataError::MissingDataAegdChunk),
        Ok((Some(k), Some(a))) => match parse_key_table(k) {
            None => Err(RelicGameDataError::UnexpectedEof),
            Some(v) => spec_parse_aegd(a, first_names(lossy_records(v))),
        },
    }
}

fn name_is(name: &[u8; 4], want: &[u8; 4]) -> (r: bool)
    ensures
        r == (name@ == want@),
{
    let r: bool = name[0] == want[0] && name[1] == want[1] && name[2] == want[2] && name[3]
        == want[3];
    proof {
        if r {
            assert(name@ =~= want@);
        }
    }
    r
}

impl RelicGameData {
    /// Reads the game data of a container.
    pub fn parse(chunky: &Chunky) -> (r: Result<Vec<GameNode>, RelicGameDataError>)
        ensures
            match spec_parse_rgd(chunky@.chunks) {
                Err(e) => r == Err::<Vec<GameNode>, RelicGameDataError>(e),
                Ok(ns) => r matches Ok(v) && view_game_nodes(v@) == ns,
            },
    {
        let chunks: Vec<&Chunk> = chunky.data_chunk_list();
        let ghost cs = data_list(chunky@.chunks);
        let mut keys_data: Option<&[u8]> = None;
        let mut aegd_data: Option<&[u8]> = None;
        let keys_name: [u8; 4] = [0x4b, 0x45, 0x59, 0x53];
        let aegd: [u8; 4] = [0x41, 0x45, 0x47, 0x44];
        proof {
            assert(keys_name@ =~= keys_tag());
            assert(aegd@ =~= aegd_name());
            assert(cs.subrange(0, 0) =~= Seq::<SpecChunk>::empty());
        }
        let mut i: usize = 0;
        while i < chunks.len()
            invariant
                i <= chunks@.len(),
                view_refs(chunks@) == cs,
                cs == data_list(chunky@.chunks),
                keys_name@ == keys_tag(),
                aegd@ == aegd_name(),
                find_tables(cs.subrange(0, i as int)) == Ok::<
                    (Option<Seq<u8>>, Option<Seq<u8>>),
                    RelicGameDataError,
                >(
                    (
                        match keys_data {
                            Some(d) => Some(d@),
                            None => None,
                        },
                        match aegd_data {
                            Some(d) => Some(d@),
                            None => None,
                        },
                    ),
                ),
            decreases chunks.len() - i,
        {
            let chunk: &Chunk = chunks[i];
            proof {
                assert(cs.subrange(0, i + 1).drop_last() =~= cs.subrange(0, i as int));
                assert(cs.subrange(0, i + 1).last() == view_chunk(*chunk));
            }
            if let Some(d) = chunk.data() {
                if name_is(&chunk.name, &keys_name) {
                    if keys_data.is_some() {
                        proof {
                            lemma_find_tables_err(cs, i + 1);
                        }
                        return Err(RelicGameDataError::MultipleDataKeysChunks);
                    }
                    keys_data = Some(d);
                } else if name_is(&chunk.name, &aegd) {
                    if aegd_data.is_some() {
                        proof {
                            lemma_find_tables_err(cs, i + 1);
                        }
                        return Err(RelicGameDataError::MultipleDataAegdChunks);
                    }
                    aegd_data = Some(d);
                }
            }
            i += 1;
        }
        proof {
            assert(cs.subrange(0, i as int) =~= cs);
        }
        let keys_data: &[u8] = match keys_data {
            Some(d) => d,
            None => {
                return Err(RelicGameDataError::MissingDataKeysChunk);
            },
        };
        let aegd_data: &[u8] = match aegd_data {
            Some(d) => d,
            None => {
                return Err(RelicGameDataError::MissingDataAegdChunk);
            },
        };
        let keys: HashMap<u64, String> = match Self::parse_keys(keys_data) {
            Ok(k) => k,
            Err(e) => {
                return Err(e);
            },
        };
        parse_aegd(aegd_data, &keys)
    }
}

/// A refusal among the first `j` chunks is the refusal of all of them.
proof fn lemma_find_tables_err(cs: Seq<SpecChunk>, j: int)
    requires
        0 <= j <= cs.len(),
        find_tables(cs.subrange(0, j)) is Err,
    ensures
        find_tables(cs) == find_tables(cs.subrange(0, j)),
    decreases cs.len() - j,
{
    if j < cs.len() {
        let t = cs.subrange(0, j + 1);
        assert(t.drop_last() =~= cs.subrange(0, j));
        lemma_find_tables_err(cs, j + 1);
    } else {
        assert(cs.subrange(0, j) =~= cs);
    }
}

} // verus!
