//! JSON values: the plain tree that the rest of the library reads, and the one
//! place where text becomes such a tree.
use vstd::prelude::*;

use crate::sort::reversed;
use crate::text::same_text;

verus! {

/// A JSON number: an integer held exactly, or the decimal text of any other.
#[derive(Debug, PartialEq, Eq)]
pub enum Number {
    /// An integer from zero up.
    Pos(u64),
    /// An integer below zero.
    Neg(i64),
    /// A number with a fraction or an exponent, as it prints.
    Float(String),
}

/// A JSON value. An object is its members in the order they are held.
#[derive(Debug, PartialEq, Eq)]
pub enum Json {
    /// `null`.
    Null,
    /// `true` or `false`.
    Bool(bool),
    /// A number.
    Num(Number),
    /// A string.
    Str(String),
    /// An array.
    Arr(Vec<Json>),
    /// An object.
    Obj(Vec<(String, Json)>),
}

/// What a JSON value is, as mathematics.
pub ghost enum Tree {
    Null,
    Bool(bool),
    Int(int),
    Float(Seq<char>),
    Str(Seq<char>),
    Arr(Seq<Tree>),
    Obj(Seq<(Seq<char>, Tree)>),
}

/// The members of an object.
pub type Members = Seq<(Seq<char>, Tree)>;

impl Number {
    /// The number as a tree.
    pub open spec fn tree(self) -> Tree {
        match self {
            Number::Pos(n) => Tree::Int(n as int),
            Number::Neg(n) => Tree::Int(n as int),
            Number::Float(s) => Tree::Float(s@),
        }
    }

    /// An equal number.
    pub fn copied(&self) -> (r: Number)
        ensures
            r.tree() == self.tree(),
    {
        match self {
            Number::Pos(n) => Number::Pos(*n),
            Number::Neg(n) => Number::Neg(*n),
            Number::Float(s) => Number::Float(s.clone()),
        }
    }
}

impl Json {
    /// The value as a tree.
    pub open spec fn tree(self) -> Tree
        decreases self,
    {
        match self {
            Json::Null => Tree::Null,
            Json::Bool(b) => Tree::Bool(b),
            Json::Num(n) => n.tree(),
            Json::Str(s) => Tree::Str(s@),
            Json::Arr(v) => Tree::Arr(
                Seq::new(
                    v@.len(),
                    |i: int|
                        if 0 <= i < v@.len() {
                            v@[i].tree()
                        } else {
                            Tree::Null
                        },
                ),
            ),
            Json::Obj(v) => Tree::Obj(
                Seq::new(
                    v@.len(),
                    |i: int|
                        if 0 <= i < v@.len() {
                            (v@[i].0@, v@[i].1.tree())
                        } else {
                            (seq![], Tree::Null)
                        },
                ),
            ),
        }
    }
}

/// The trees of a list of values.
pub open spec fn trees(v: Seq<Json>) -> Seq<Tree> {
    Seq::new(v.len(), |i: int| v[i].tree())
}

/// The members that a list of named values stands for.
pub open spec fn members(v: Seq<(String, Json)>) -> Members {
    Seq::new(v.len(), |i: int| (v[i].0@, v[i].1.tree()))
}

/// An array's tree lists its items' trees.
pub broadcast proof fn tree_of_array(v: Vec<Json>)
    ensures
        #[trigger] Json::Arr(v).tree() == Tree::Arr(trees(v@)),
{
    assert(Json::Arr(v).tree()->Arr_0 =~= trees(v@));
}

/// An object's tree lists its members.
pub broadcast proof fn tree_of_object(v: Vec<(String, Json)>)
    ensures
        #[trigger] Json::Obj(v).tree() == Tree::Obj(members(v@)),
{
    assert(Json::Obj(v).tree()->Obj_0 =~= members(v@));
}

/// One more item is one more tree.
pub broadcast proof fn trees_push(v: Seq<Json>, j: Json)
    ensures
        #[trigger] trees(v.push(j)) == trees(v).push(j.tree()),
{
    assert(trees(v.push(j)) =~= trees(v).push(j.tree()));
}

/// One more named value is one more member.
pub broadcast proof fn members_push(v: Seq<(String, Json)>, j: (String, Json))
    ensures
        #[trigger] members(v.push(j)) == members(v).push((j.0@, j.1.tree())),
{
    assert(members(v.push(j)) =~= members(v).push((j.0@, j.1.tree())));
}

/// The value of the first member with a name.
pub open spec fn field(o: Members, key: Seq<char>) -> Option<Tree>
    decreases o.len(),
{
    if o.len() == 0 {
        None
    } else if o[0].0 == key {
        Some(o[0].1)
    } else {
        field(o.drop_first(), key)
    }
}

/// The member of a value with a name: none unless the value is an object.
pub open spec fn member(t: Tree, key: Seq<char>) -> Option<Tree> {
    match t {
        Tree::Obj(o) => field(o, key),
        _ => None,
    }
}

/// The string that a slot holds, if it holds one.
pub open spec fn text_at(t: Option<Tree>) -> Option<Seq<char>> {
    match t {
        Some(Tree::Str(s)) => Some(s),
        _ => None,
    }
}

/// The tree of a slot that holds a value.
pub open spec fn slot_tree(j: Option<&Json>) -> Option<Tree> {
    match j {
        Some(v) => Some(v.tree()),
        None => None,
    }
}

/// The tree of an owned value, if there is one.
pub open spec fn opt_tree(j: Option<Json>) -> Option<Tree> {
    match j {
        Some(v) => Some(v.tree()),
        None => None,
    }
}

/// The characters of an owned text, if there is one.
pub open spec fn opt_text(s: Option<String>) -> Option<Seq<char>> {
    match s {
        Some(v) => Some(v@),
        None => None,
    }
}

/// The characters of a borrowed text, if there is one.
pub open spec fn opt_str(s: Option<&str>) -> Option<Seq<char>> {
    match s {
        Some(v) => Some(v@),
        None => None,
    }
}

/// Finds the first member with a name.
pub fn find_member<'a>(o: &'a Vec<(String, Json)>, key: &str) -> (r: Option<&'a Json>)
    ensures
        slot_tree(r) == field(members(o@), key@),
{
    let mut i: usize = 0;
    assert(members(o@).subrange(0, o.len() as int) =~= members(o@));
    while i < o.len()
        invariant
            i <= o.len(),
            field(members(o@), key@) == field(
                members(o@).subrange(i as int, o.len() as int),
                key@,
            ),
        decreases o.len() - i,
    {
        let ghost rest = members(o@).subrange(i as int, o.len() as int);
        if same_text(o[i].0.as_str(), key) {
            return Some(&o[i].1);
        }
        assert(rest.drop_first() =~= members(o@).subrange(i + 1, o.len() as int));
        i = i + 1;
    }
    None
}

impl Json {
    /// The member with a name, of an object; none of anything else.
    pub fn get(&self, key: &str) -> (r: Option<&Json>)
        ensures
            slot_tree(r) == member(self.tree(), key@),
    {
        broadcast use tree_of_object;

        match self {
            Json::Obj(o) => find_member(o, key),
            _ => None,
        }
    }

    /// The string that the value is, if it is one.
    pub fn as_str(&self) -> (r: Option<&str>)
        ensures
            opt_str(r) == text_at(Some(self.tree())),
    {
        match self {
            Json::Str(s) => Some(s.as_str()),
            _ => None,
        }
    }

    /// The string at a member with a name, if there is one.
    pub fn text_of(&self, key: &str) -> (r: Option<&str>)
        ensures
            opt_str(r) == text_at(member(self.tree(), key@)),
    {
        match self.get(key) {
            Some(v) => v.as_str(),
            None => None,
        }
    }

    /// An equal value.
    pub fn copied(&self) -> (r: Json)
        ensures
            r.tree() == self.tree(),
        decreases self,
    {
        broadcast use {tree_of_array, tree_of_object, trees_push, members_push};

        match self {
            Json::Null => Json::Null,
            Json::Bool(b) => Json::Bool(*b),
            Json::Num(n) => Json::Num(n.copied()),
            Json::Str(s) => Json::Str(s.clone()),
            Json::Arr(v) => {
                let mut out: Vec<Json> = Vec::new();
                let mut i: usize = 0;
                while i < v.len()
                    invariant
                        self is Arr && self->Arr_0 == *v,
                        i <= v.len(),
                        trees(out@) == trees(v@).subrange(0, i as int),
                    decreases v.len() - i,
                {
                    assert(decreases_to!(*self => self->Arr_0));
                    assert(decreases_to!(*v => v[i as int]));
                    let item: Json = v[i].copied();
                    let ghost before = out@;
                    out.push(item);
                    assert(out@ == before.push(item));
                    assert(trees(v@)[i as int] == item.tree());
                    assert(trees(out@) == trees(before).push(item.tree()));
                    assert(trees(before) == trees(v@).subrange(0, i as int));
                    i = i + 1;
                    assert(trees(out@) =~= trees(v@).subrange(0, i as int));
                }
                assert(trees(out@) =~= trees(v@));
                Json::Arr(out)
            },
            Json::Obj(v) => {
                let mut out: Vec<(String, Json)> = Vec::new();
                let mut i: usize = 0;
                while i < v.len()
                    invariant
                        self is Obj && self->Obj_0 == *v,
                        i <= v.len(),
                        members(out@) == members(v@).subrange(0, i as int),
                    decreases v.len() - i,
                {
                    assert(decreases_to!(*self => self->Obj_0));
                    assert(decreases_to!(*v => v[i as int]));
                    let item: Json = v[i].1.copied();
                    let ghost before = out@;
                    let name: String = v[i].0.clone();
                    out.push((name, item));
                    assert(out@ == before.push((name, item)));
                    assert(members(v@)[i as int] == (name@, item.tree()));
                    assert(members(out@) == members(before).push((name@, item.tree())));
                    i = i + 1;
                    assert(members(out@) =~= members(v@).subrange(0, i as int));
                }
                assert(members(out@) =~= members(v@));
                Json::Obj(out)
            },
        }
    }
}

/// A slot with no value of its own: missing, or `null`.
pub open spec fn any_at(t: Option<Tree>) -> Option<Tree> {
    match t {
        Some(Tree::Null) => None,
        other => other,
    }
}

/// Is the slot empty, or does it hold a string?
pub open spec fn text_fits(t: Option<Tree>) -> bool {
    match any_at(t) {
        Some(v) => v is Str,
        None => true,
    }
}

/// Is the slot empty, or does it hold a truth value?
pub open spec fn flag_fits(t: Option<Tree>) -> bool {
    match any_at(t) {
        Some(v) => v is Bool,
        None => true,
    }
}

/// The truth value that a slot holds, if it holds one.
pub open spec fn flag_at(t: Option<Tree>) -> Option<bool> {
    match t {
        Some(Tree::Bool(b)) => Some(b),
        _ => None,
    }
}

/// Is the slot empty, or does it hold an integer between the bounds?
pub open spec fn int_fits(t: Option<Tree>, low: int, high: int) -> bool {
    match any_at(t) {
        Some(Tree::Int(n)) => low <= n <= high,
        Some(_) => false,
        None => true,
    }
}

/// The integer that a slot holds, if it holds one.
pub open spec fn int_at(t: Option<Tree>) -> Option<int> {
    match t {
        Some(Tree::Int(n)) => Some(n),
        _ => None,
    }
}

/// Is the slot empty, or does it hold a 64-bit count?
pub open spec fn count_fits(t: Option<Tree>) -> bool {
    int_fits(t, 0, u64::MAX as int)
}

/// The 64-bit count that a slot holds.
pub open spec fn count_at(t: Option<Tree>) -> Option<u64> {
    match int_at(t) {
        Some(n) => Some(n as u64),
        None => None,
    }
}

/// Is the slot empty, or does it hold a signed 64-bit integer?
pub open spec fn signed_fits(t: Option<Tree>) -> bool {
    int_fits(t, i64::MIN as int, i64::MAX as int)
}

/// The signed 64-bit integer that a slot holds.
pub open spec fn signed_at(t: Option<Tree>) -> Option<i64> {
    match int_at(t) {
        Some(n) => Some(n as i64),
        None => None,
    }
}

/// Is the slot empty, or does it hold a number of any kind?
pub open spec fn number_fits(t: Option<Tree>) -> bool {
    match any_at(t) {
        Some(v) => v is Int || v is Float,
        None => true,
    }
}

/// The number that a slot holds, if it holds one.
pub open spec fn number_at(t: Option<Tree>) -> Option<Tree> {
    match t {
        Some(Tree::Int(n)) => t,
        Some(Tree::Float(s)) => t,
        _ => None,
    }
}

/// The tree of an owned number, if there is one.
pub open spec fn opt_number(n: Option<Number>) -> Option<Tree> {
    match n {
        Some(v) => Some(v.tree()),
        None => None,
    }
}

/// The members whose name is to be kept, in order.
pub open spec fn kept_by(o: Members, keep: spec_fn(Seq<char>) -> bool) -> Members
    decreases o.len(),
{
    if o.len() == 0 {
        seq![]
    } else if keep(o.last().0) {
        kept_by(o.drop_last(), keep).push(o.last())
    } else {
        kept_by(o.drop_last(), keep)
    }
}

/// Reads an optional string.
pub fn read_text(j: Option<&Json>) -> (r: Result<Option<String>, ()>)
    ensures
        r is Ok <==> text_fits(slot_tree(j)),
        r matches Ok(v) ==> opt_text(v) == text_at(slot_tree(j)),
        match j {
            None => r == Ok::<Option<String>, ()>(None),
            Some(v) => match *v {
                Json::Null => r == Ok::<Option<String>, ()>(None),
                Json::Str(s) => r matches Ok(Some(t)) && t@ == s@,
                _ => r is Err,
            },
        },
{
    match j {
        None => Ok(None),
        Some(Json::Null) => Ok(None),
        Some(Json::Str(s)) => Ok(Some(s.clone())),
        Some(_) => Err(()),
    }
}

/// Reads an optional truth value.
pub fn read_flag(j: Option<&Json>) -> (r: Result<Option<bool>, ()>)
    ensures
        r is Ok <==> flag_fits(slot_tree(j)),
        r matches Ok(v) ==> v == flag_at(slot_tree(j)),
        match j {
            None => r == Ok::<Option<bool>, ()>(None),
            Some(v) => match *v {
                Json::Null => r == Ok::<Option<bool>, ()>(None),
                Json::Bool(b) => r == Ok::<Option<bool>, ()>(Some(b)),
                _ => r is Err,
            },
        },
{
    match j {
        None => Ok(None),
        Some(Json::Null) => Ok(None),
        Some(Json::Bool(b)) => Ok(Some(*b)),
        Some(_) => Err(()),
    }
}

/// Reads an optional 64-bit count.
pub fn read_count(j: Option<&Json>) -> (r: Result<Option<u64>, ()>)
    ensures
        r is Ok <==> count_fits(slot_tree(j)),
        r matches Ok(v) ==> v == count_at(slot_tree(j)),
        match j {
            None => r == Ok::<Option<u64>, ()>(None),
            Some(v) => match *v {
                Json::Null => r == Ok::<Option<u64>, ()>(None),
                Json::Num(Number::Pos(n)) => r == Ok::<Option<u64>, ()>(Some(n)),
                Json::Num(Number::Neg(n)) => n >= 0 ==> r == Ok::<Option<u64>, ()>(Some(n as u64)),
                _ => r is Err,
            },
        },
{
    match j {
        None => Ok(None),
        Some(Json::Null) => Ok(None),
        Some(Json::Num(Number::Pos(n))) => Ok(Some(*n)),
        Some(Json::Num(Number::Neg(n))) => if *n >= 0 {
            Ok(Some(*n as u64))
        } else {
            Err(())
        },
        Some(_) => Err(()),
    }
}

/// Reads an optional signed 64-bit integer.
pub fn read_signed(j: Option<&Json>) -> (r: Result<Option<i64>, ()>)
    ensures
        r is Ok <==> signed_fits(slot_tree(j)),
        r matches Ok(v) ==> v == signed_at(slot_tree(j)),
        match j {
            None => r == Ok::<Option<i64>, ()>(None),
            Some(v) => match *v {
                Json::Null => r == Ok::<Option<i64>, ()>(None),
                Json::Num(Number::Pos(n)) => if n <= i64::MAX {
                    r == Ok::<Option<i64>, ()>(Some(n as i64))
                } else {
                    r is Err
                },
                Json::Num(Number::Neg(n)) => r == Ok::<Option<i64>, ()>(Some(n)),
                _ => r is Err,
            },
        },
{
    match j {
        None => Ok(None),
        Some(Json::Null) => Ok(None),
        Some(Json::Num(Number::Pos(n))) => if *n <= 0x7fff_ffff_ffff_ffff {
            Ok(Some(*n as i64))
        } else {
            Err(())
        },
        Some(Json::Num(Number::Neg(n))) => Ok(Some(*n)),
        Some(_) => Err(()),
    }
}

/// Reads an optional number of any kind.
pub fn read_number(j: Option<&Json>) -> (r: Result<Option<Number>, ()>)
    ensures
        r is Ok <==> number_fits(slot_tree(j)),
        r matches Ok(v) ==> opt_number(v) == number_at(slot_tree(j)),
        match j {
            None => r matches Ok(None),
            Some(v) => match *v {
                Json::Null => r matches Ok(None),
                Json::Num(n) => r matches Ok(Some(m)) && m.tree() == n.tree(),
                _ => r is Err,
            },
        },
{
    match j {
        None => Ok(None),
        Some(Json::Null) => Ok(None),
        Some(Json::Num(n)) => Ok(Some(n.copied())),
        Some(_) => Err(()),
    }
}

/// Reads an optional value of any kind.
pub fn read_any(j: Option<&Json>) -> (r: Option<Json>)
    ensures
        opt_tree(r) == any_at(slot_tree(j)),
        match j {
            None => r is None,
            Some(v) => match *v {
                Json::Null => r is None,
                _ => r matches Some(w) && w.tree() == v.tree(),
            },
        },
{
    match j {
        None => None,
        Some(Json::Null) => None,
        Some(v) => Some(v.copied()),
    }
}

/// `serde_json::Value`, carried from the parser to [`opened`].
#[verifier::external_type_specification]
#[verifier::external_body]
pub struct ExValue(serde_json::Value);

/// `serde_json::Error`: why a text is no JSON.
#[verifier::external_type_specification]
#[verifier::external_body]
pub struct ExError(serde_json::Error);

/// What a `serde_json::Value` holds.
pub uninterp spec fn value_tree(v: serde_json::Value) -> Tree;

/// The value that `serde_json::from_str` reads from a text; none where it
/// refuses the text.
pub uninterp spec fn json_tree(text: Seq<char>) -> Option<Tree>;

/// `serde_json::from_str::<Value>`: it reads the whole text as one JSON value,
/// or refuses it; which of the two, and the value, depend on the text alone.
#[verifier::external_body]
fn parse_value(text: &str) -> (r: Result<serde_json::Value, serde_json::Error>)
    ensures
        match r {
            Ok(v) => json_tree(text@) == Some(value_tree(v)),
            Err(_) => json_tree(text@) is None,
        },
{
    serde_json::from_str(text)
}

/// A `serde_json::Value` opened by one level: its items and members are values
/// still.
pub enum Opened {
    /// `null`.
    Null,
    /// `true` or `false`.
    Bool(bool),
    /// A number.
    Num(Number),
    /// A string.
    Str(String),
    /// An array.
    Arr(Vec<serde_json::Value>),
    /// An object.
    Obj(Vec<(String, serde_json::Value)>),
}

/// The trees of a list of parsed values.
pub open spec fn value_trees(v: Seq<serde_json::Value>) -> Seq<Tree> {
    Seq::new(v.len(), |i: int| value_tree(v[i]))
}

/// The members that a list of named parsed values stands for.
pub open spec fn value_members(v: Seq<(String, serde_json::Value)>) -> Members {
    Seq::new(v.len(), |i: int| (v[i].0@, value_tree(v[i].1)))
}

impl Opened {
    /// The value as a tree.
    pub open spec fn tree(self) -> Tree {
        match self {
            Opened::Null => Tree::Null,
            Opened::Bool(b) => Tree::Bool(b),
            Opened::Num(n) => n.tree(),
            Opened::Str(s) => Tree::Str(s@),
            Opened::Arr(v) => Tree::Arr(value_trees(v@)),
            Opened::Obj(v) => Tree::Obj(value_members(v@)),
        }
    }
}

/// The variants of `serde_json::Value`: what a value holds is what its variant
/// does, an array's items and an object's members in the order in which they are
/// held. A number that `Number::as_u64` or `Number::as_i64` gives is an integer;
/// any other is kept as `Number` prints it.
#[verifier::external_body]
fn opened(v: serde_json::Value) -> (r: Opened)
    ensures
        r.tree() == value_tree(v),
{
    match v {
        serde_json::Value::Null => Opened::Null,
        serde_json::Value::Bool(b) => Opened::Bool(b),
        serde_json::Value::Number(n) => Opened::Num(match (n.as_u64(), n.as_i64()) {
            (Some(p), _) => Number::Pos(p),
            (None, Some(i)) => Number::Neg(i),
            (None, None) => Number::Float(n.to_string()),
        }),
        serde_json::Value::String(s) => Opened::Str(s),
        serde_json::Value::Array(a) => Opened::Arr(a),
        serde_json::Value::Object(o) => Opened::Obj(o.into_iter().collect()),
    }
}

/// The content of a parsed value, all the way down.
fn json_from(v: serde_json::Value) -> (r: Json)
    ensures
        r.tree() == value_tree(v),
    decreases value_tree(v),
{
    broadcast use {tree_of_array, tree_of_object, trees_push, members_push};

    match opened(v) {
        Opened::Null => Json::Null,
        Opened::Bool(b) => Json::Bool(b),
        Opened::Num(n) => Json::Num(n),
        Opened::Str(s) => Json::Str(s),
        Opened::Arr(items) => {
            let ghost all = items@;
            let ghost whole = value_trees(all);
            assert(value_tree(v) == Tree::Arr(whole));
            let n: usize = items.len();
            let mut rest: Vec<serde_json::Value> = reversed(items);
            let mut out: Vec<Json> = Vec::new();
            assert(trees(out@) =~= whole.subrange(0, 0));
            let mut i: usize = 0;
            while i < n
                invariant
                    i <= n == all.len(),
                    whole == value_trees(all),
                    value_tree(v) == Tree::Arr(whole),
                    rest@.len() == n - i,
                    forall|k: int| 0 <= k < rest@.len() ==> #[trigger] rest@[k] == all[n - 1 - k],
                    trees(out@) == whole.subrange(0, i as int),
                decreases n - i,
            {
                if let Some(x) = rest.pop() {
                    proof {
                        assert(x == all[i as int]);
                        assert(whole[i as int] == value_tree(x));
                        assert(decreases_to!(value_tree(v) => value_tree(v)->Arr_0));
                        assert(decreases_to!(whole => whole[i as int]));
                    }
                    out.push(json_from(x));
                }
                assert(whole.subrange(0, i + 1) =~= whole.subrange(0, i as int).push(
                    whole[i as int],
                ));
                i = i + 1;
            }
            assert(whole.subrange(0, n as int) =~= whole);
            Json::Arr(out)
        },
        Opened::Obj(items) => {
            let ghost all = items@;
            let ghost whole = value_members(all);
            assert(value_tree(v) == Tree::Obj(whole));
            let n: usize = items.len();
            let mut rest: Vec<(String, serde_json::Value)> = reversed(items);
            let mut out: Vec<(String, Json)> = Vec::new();
            assert(members(out@) =~= whole.subrange(0, 0));
            let mut i: usize = 0;
            while i < n
                invariant
                    i <= n == all.len(),
                    whole == value_members(all),
                    value_tree(v) == Tree::Obj(whole),
                    rest@.len() == n - i,
                    forall|k: int| 0 <= k < rest@.len() ==> #[trigger] rest@[k] == all[n - 1 - k],
                    members(out@) == whole.subrange(0, i as int),
                decreases n - i,
            {
                if let Some((key, x)) = rest.pop() {
                    proof {
                        assert((key, x) == all[i as int]);
                        assert(whole[i as int] == (key@, value_tree(x)));
                        assert(decreases_to!(value_tree(v) => value_tree(v)->Obj_0));
                        assert(decreases_to!(whole => whole[i as int]));
                        assert(decreases_to!(whole[i as int] => whole[i as int].1));
                    }
                    out.push((key, json_from(x)));
                }
                assert(whole.subrange(0, i + 1) =~= whole.subrange(0, i as int).push(
                    whole[i as int],
                ));
                i = i + 1;
            }
            assert(whole.subrange(0, n as int) =~= whole);
            Json::Obj(out)
        },
    }
}

/// Reads a text as one JSON value.
pub fn read_json(text: &str) -> (r: Option<Json>)
    ensures
        opt_tree(r) == json_tree(text@),
{
    match parse_value(text) {
        Ok(v) => Some(json_from(v)),
        Err(_) => None,
    }
}

/// A member is found under its name, the first of several; where no member has the name
/// there is none.
pub proof fn a_member_is_found_under_its_name(o: Members, key: Seq<char>)
    ensures
        match field(o, key) {
            Some(v) => exists|i: int|
                0 <= i < o.len() && #[trigger] o[i] == (key, v) && (forall|j: int|
                    0 <= j < i ==> (#[trigger] o[j]).0 != key),
            None => forall|j: int| 0 <= j < o.len() ==> (#[trigger] o[j]).0 != key,
        },
    decreases o.len(),
{
    if o.len() > 0 && o[0].0 != key {
        let rest = o.drop_first();
        a_member_is_found_under_its_name(rest, key);
        if let Some(v) = field(o, key) {
            let i = choose|i: int|
                0 <= i < rest.len() && #[trigger] rest[i] == (key, v) && (forall|j: int|
                    0 <= j < i ==> (#[trigger] rest[j]).0 != key);
            assert(o[i + 1] == (key, v));
            assert forall|j: int| 0 <= j < i + 1 implies (#[trigger] o[j]).0 != key by {
                if j > 0 {
                    assert(rest[j - 1] == o[j]);
                }
            }
        } else {
            assert forall|j: int| 0 <= j < o.len() implies (#[trigger] o[j]).0 != key by {
                if j > 0 {
                    assert(rest[j - 1] == o[j]);
                }
            }
        }
    } else if o.len() > 0 {
        assert(o[0] == (key, o[0].1));
    }
}

/// Only an object has members.
pub proof fn only_objects_have_members(t: Tree, key: Seq<char>)
    ensures
        t matches Tree::Obj(o) ==> member(t, key) == field(o, key),
        !(t is Obj) ==> member(t, key) is None,
{
}

/// The members that are kept are those whose names are to be, in order.
pub proof fn kept_members_are_those_to_keep(o: Members, keep: spec_fn(Seq<char>) -> bool)
    ensures
        kept_by(o, keep) == o.filter(|m: (Seq<char>, Tree)| keep(m.0)),
    decreases o.len(),
{
    reveal(Seq::filter);
    if o.len() > 0 {
        kept_members_are_those_to_keep(o.drop_last(), keep);
    } else {
        assert(kept_by(o, keep) =~= o.filter(|m: (Seq<char>, Tree)| keep(m.0)));
    }
}

/// A value stands for a tree of the same kind, item by item and member by member.
pub proof fn a_value_is_its_tree(j: Json)
    ensures
        match j {
            Json::Null => j.tree() is Null,
            Json::Bool(b) => j.tree() == Tree::Bool(b),
            Json::Num(Number::Pos(n)) => j.tree() == Tree::Int(n as int),
            Json::Num(Number::Neg(n)) => j.tree() == Tree::Int(n as int),
            Json::Num(Number::Float(s)) => j.tree() == Tree::Float(s@),
            Json::Str(s) => j.tree() == Tree::Str(s@),
            Json::Arr(v) => j.tree() matches Tree::Arr(a) && a.len() == v@.len() && forall|i: int|
                0 <= i < a.len() ==> #[trigger] a[i] == v@[i].tree(),
            Json::Obj(v) => j.tree() matches Tree::Obj(o) && o.len() == v@.len() && forall|i: int|
                0 <= i < o.len() ==> #[trigger] o[i] == (v@[i].0@, v@[i].1.tree()),
        },
{
}

/// An optional text or value is shown as it is, and nothing as nothing; so is a list of
/// values or of members, one by one.
pub proof fn what_may_be_missing_is_shown_as_it_is(
    s: Option<String>,
    j: Option<Json>,
    v: Seq<Json>,
    m: Seq<(String, Json)>,
)
    ensures
        s is None ==> opt_text(s) is None,
        s is Some ==> opt_text(s) == Some(s->0@),
        j is None ==> opt_tree(j) is None,
        j is Some ==> opt_tree(j) == Some(j->0.tree()),
        trees(v).len() == v.len(),
        forall|i: int| 0 <= i < v.len() ==> #[trigger] trees(v)[i] == v[i].tree(),
        members(m).len() == m.len(),
        forall|i: int|
            0 <= i < m.len() ==> (#[trigger] members(m)[i]).0 == m[i].0@ && members(m)[i].1
                == m[i].1.tree(),
{
}

} // verus!
