//! JSON Schema → document automaton.
//!
//! Reads the subset of JSON Schema that matters here: the types under
//! `$defs`, each an object type whose `properties` name sub-documents (a
//! reference `#/$defs/Name` to another type, an array of references or
//! primitives, or a primitive) and whose `additionalProperties` is `false`.
//! Each type becomes a state; each array property becomes a state of its
//! own that steps into every element (`[*]`).

use vstd::prelude::*;
use vstd::string::{StrSliceExecFns, StringExecFns};

use crate::automaton::{new_array_transition, new_member_transition, ArrayLabel, ArrayTransition, Automaton, MemberTransition, StateTable};
use crate::json::{parse_json, parsed_json, JsonValue};

verus! {

/// What an array property holds: a reference to a type, or a primitive.
pub enum ItemType {
    Type(String),
    Primitive,
}

/// What a property holds: a reference to a type, an array, or a primitive.
pub enum ChildType {
    Type(String),
    Array(Vec<ItemType>),
    Primitive,
}

/// A property of a type: its name and what it holds.
pub struct JsonChild {
    pub label: String,
    pub child_type: ChildType,
}

/// A type definition: its name, its properties, whether it admits other
/// properties, and whether it stands for the elements of an array property.
pub struct SchemaType {
    pub name: String,
    pub properties: Vec<JsonChild>,
    pub additional_properties: bool,
    pub fake_type: bool,
}

impl SchemaType {
    /// A type read from `$defs`.
    fn new(name: String, properties: Vec<JsonChild>, additional_properties: bool) -> (r: Self)
        ensures
            r.name == name,
            r.properties == properties,
            r.additional_properties == additional_properties,
            !r.fake_type,
    {
        Self { name, properties, additional_properties, fake_type: false }
    }

    /// The type that stands for the elements of an array property.
    fn fake(name: String, properties: Vec<JsonChild>) -> (r: Self)
        ensures
            r.name == name,
            r.properties == properties,
            !r.additional_properties,
            r.fake_type,
    {
        Self { name, properties, additional_properties: false, fake_type: true }
    }
}

/// The value of an [`ItemType`].
pub enum ItemSpec {
    Type(Seq<char>),
    Primitive,
}

/// The value of a [`ChildType`].
pub enum ChildSpec {
    Type(Seq<char>),
    Array(Seq<ItemSpec>),
    Primitive,
}

/// The value of a [`SchemaType`].
pub struct TypeSpec {
    pub name: Seq<char>,
    pub props: Seq<(Seq<char>, ChildSpec)>,
    pub additional: bool,
    pub fake: bool,
}

impl View for ItemType {
    type V = ItemSpec;

    open spec fn view(&self) -> ItemSpec {
        match self {
            ItemType::Type(n) => ItemSpec::Type(n@),
            ItemType::Primitive => ItemSpec::Primitive,
        }
    }
}

impl View for ChildType {
    type V = ChildSpec;

    open spec fn view(&self) -> ChildSpec {
        match self {
            ChildType::Type(n) => ChildSpec::Type(n@),
            ChildType::Array(items) => ChildSpec::Array(items@.map_values(|it: ItemType| it@)),
            ChildType::Primitive => ChildSpec::Primitive,
        }
    }
}

impl View for JsonChild {
    type V = (Seq<char>, ChildSpec);

    open spec fn view(&self) -> (Seq<char>, ChildSpec) {
        (self.label@, self.child_type@)
    }
}

impl View for SchemaType {
    type V = TypeSpec;

    open spec fn view(&self) -> TypeSpec {
        TypeSpec {
            name: self.name@,
            props: self.properties@.map_values(|c: JsonChild| c@),
            additional: self.additional_properties,
            fake: self.fake_type,
        }
    }
}

/// What can go wrong while reading a schema.
#[derive(Debug)]
pub enum ParsingError {
    FieldNotFound { field: String },
    InvalidType { field: String, expected: String },
    InvalidJson(serde_json::Error),
    TypeNotFound { name: String, reference: String },
    DuplicateType { name: String },
    Error(String),
}

/// The value of a [`ParsingError`]; the parser's error is not looked into.
pub enum ErrSpec {
    FieldNotFound(Seq<char>),
    InvalidType(Seq<char>, Seq<char>),
    InvalidJson,
    TypeNotFound(Seq<char>, Seq<char>),
    DuplicateType(Seq<char>),
    Error(Seq<char>),
}

impl View for ParsingError {
    type V = ErrSpec;

    open spec fn view(&self) -> ErrSpec {
        match self {
            ParsingError::FieldNotFound { field } => ErrSpec::FieldNotFound(field@),
            ParsingError::InvalidType { field, expected } => ErrSpec::InvalidType(field@, expected@),
            ParsingError::InvalidJson(_) => ErrSpec::InvalidJson,
            ParsingError::TypeNotFound { name, reference } => ErrSpec::TypeNotFound(name@, reference@),
            ParsingError::DuplicateType { name } => ErrSpec::DuplicateType(name@),
            ParsingError::Error(m) => ErrSpec::Error(m@),
        }
    }
}

impl ParsingError {
    fn not_found(field: &str) -> (r: Self)
        ensures
            r@ == ErrSpec::FieldNotFound(field@),
    {
        Self::FieldNotFound { field: field.to_owned() }
    }

    fn invalid_type(field: &str, expected: &str) -> (r: Self)
        ensures
            r@ == ErrSpec::InvalidType(field@, expected@),
    {
        Self::InvalidType { field: field.to_owned(), expected: expected.to_owned() }
    }

    fn invalid_json(e: serde_json::Error) -> (r: Self)
        ensures
            r@ == ErrSpec::InvalidJson,
            r == ParsingError::InvalidJson(e),
    {
        Self::InvalidJson(e)
    }

    fn type_not_found(name: &str, reference: &str) -> (r: Self)
        ensures
            r@ == ErrSpec::TypeNotFound(name@, reference@),
    {
        Self::TypeNotFound { name: name.to_owned(), reference: reference.to_owned() }
    }

    fn duplicate_type(name: &str) -> (r: Self)
        ensures
            r@ == ErrSpec::DuplicateType(name@),
    {
        Self::DuplicateType { name: name.to_owned() }
    }
}

/// The value of the first member named `key`.
pub open spec fn members_get(members: Seq<(String, JsonValue)>, key: Seq<char>) -> Option<JsonValue>
    decreases members.len(),
{
    if members.len() == 0 {
        None
    } else if members[0].0@ == key {
        Some(members[0].1)
    } else {
        members_get(members.drop_first(), key)
    }
}

/// The member `key` of an object; `None` for anything else.
pub open spec fn json_get(v: JsonValue, key: Seq<char>) -> Option<JsonValue> {
    match v {
        JsonValue::Object(members) => members_get(members@, key),
        _ => None,
    }
}

/// The member `key` of `v`, if `v` is an object that has it.
fn get_field<'a>(v: &'a JsonValue, key: &str) -> (r: Option<&'a JsonValue>)
    ensures
        match r {
            Some(x) => json_get(*v, key@) == Some(*x),
            None => json_get(*v, key@) is None,
        },
{
    match v {
        JsonValue::Object(members) => {
            let wanted = key.to_owned();
            let mut i: usize = 0;
            proof {
                assert(members@.skip(0) =~= members@);
            }
            while i < members.len()
                invariant
                    *v == JsonValue::Object(*members),
                    wanted@ == key@,
                    i <= members@.len(),
                    members_get(members@, key@) == members_get(members@.skip(i as int), key@),
                decreases members@.len() - i,
            {
                proof {
                    assert(members@.skip(i as int).drop_first() =~= members@.skip(i + 1));
                    assert(members@.skip(i as int)[0] == members@[i as int]);
                }
                if members[i].0 == wanted {
                    return Some(&members[i].1);
                }
                i += 1;
            }
            proof {
                assert(members@.skip(i as int) =~= Seq::<(String, JsonValue)>::empty());
            }
            None
        },
        _ => None,
    }
}


/// Position of the last `/` in `s`, or -1 if there is none.
pub open spec fn last_slash(s: Seq<char>) -> int
    decreases s.len(),
{
    if s.len() == 0 {
        -1
    } else if s.last() == '/' {
        s.len() - 1
    } else {
        last_slash(s.drop_last())
    }
}

/// The type name of a reference such as `#/$defs/Book`: what follows the
/// last `/`, or the whole reference when there is no `/`.
pub open spec fn ref_type_name(s: Seq<char>) -> Seq<char> {
    s.subrange(last_slash(s) + 1, s.len() as int)
}

proof fn lemma_last_slash_range(s: Seq<char>)
    ensures
        -1 <= last_slash(s) < s.len(),
    decreases s.len(),
{
    if s.len() > 0 {
        lemma_last_slash_range(s.drop_last());
    }
}

/// The type name that `reference` names.
fn get_type_name_from_ref(reference: &str) -> (r: &str)
    ensures
        r@ == ref_type_name(reference@),
{
    let n = reference.unicode_len();
    let mut i = n;
    proof {
        assert(reference@.take(n as int) =~= reference@);
    }
    while i > 0 && reference.get_char(i - 1) != '/'
        invariant
            n == reference@.len(),
            i <= n,
            last_slash(reference@) == last_slash(reference@.take(i as int)),
        decreases i,
    {
        proof {
            assert(reference@.take(i as int).drop_last() =~= reference@.take(i - 1));
        }
        i -= 1;
    }
    proof {
        if i > 0 {
            assert(reference@.take(i as int).last() == '/');
        }
        lemma_last_slash_range(reference@);
    }
    reference.substring_char(i, n)
}

/// The array item that a `$ref` value names.
pub open spec fn spec_type_from_ref(value: JsonValue) -> Result<ItemSpec, ErrSpec> {
    match value {
        JsonValue::String(s) => Ok(ItemSpec::Type(ref_type_name(s@))),
        _ => Err(ErrSpec::InvalidType("$ref"@, "string"@)),
    }
}

/// The array item that the `$ref` value `value` names.
fn extract_type_from_ref(value: &JsonValue) -> (r: Result<ItemType, ParsingError>)
    ensures
        match r {
            Ok(t) => spec_type_from_ref(*value) == Ok::<ItemSpec, ErrSpec>(t@),
            Err(e) => spec_type_from_ref(*value) == Err::<ItemSpec, ErrSpec>(e@),
        },
{
    match value {
        JsonValue::String(reference) => {
            let name = get_type_name_from_ref(reference.as_str());
            Ok(ItemType::Type(name.to_owned()))
        },
        _ => Err(ParsingError::invalid_type("$ref", "string")),
    }
}

/// One alternative of `anyOf`: a reference, or anything with a `type`.
pub open spec fn spec_any_of_item(item: JsonValue) -> Result<ItemSpec, ErrSpec> {
    match json_get(item, "$ref"@) {
        Some(r) => spec_type_from_ref(r),
        None => if json_get(item, "type"@) is Some {
            Ok(ItemSpec::Primitive)
        } else {
            Err(ErrSpec::InvalidType("anyOf item"@, "object with $ref or type"@))
        },
    }
}

/// The alternatives of `anyOf`, in order; the first bad one is the error.
pub open spec fn spec_any_of_items(items: Seq<JsonValue>) -> Result<Seq<ItemSpec>, ErrSpec>
    decreases items.len(),
{
    if items.len() == 0 {
        Ok(Seq::empty())
    } else {
        match spec_any_of_item(items[0]) {
            Err(e) => Err(e),
            Ok(t) => match spec_any_of_items(items.drop_first()) {
                Err(e) => Err(e),
                Ok(rest) => Ok(seq![t] + rest),
            },
        }
    }
}

/// What the elements of an array property can be, from its `items`: one
/// reference, a primitive (anything with a `type`), or the alternatives of
/// `anyOf`.
pub open spec fn spec_unpack_array(items: JsonValue) -> Result<Seq<ItemSpec>, ErrSpec> {
    match json_get(items, "$ref"@) {
        Some(r) => match spec_type_from_ref(r) {
            Ok(t) => Ok(seq![t]),
            Err(e) => Err(e),
        },
        None => if json_get(items, "type"@) is Some {
            Ok(seq![ItemSpec::Primitive])
        } else {
            match json_get(items, "anyOf"@) {
                None => Err(ErrSpec::FieldNotFound("anyOf"@)),
                Some(JsonValue::Array(alternatives)) => spec_any_of_items(alternatives@),
                Some(_) => Err(ErrSpec::InvalidType("anyOf"@, "array"@)),
            }
        },
    }
}

/// The element types of an array property.
fn unpack_array(items: &JsonValue) -> (r: Result<Vec<ItemType>, ParsingError>)
    ensures
        match r {
            Ok(ts) => spec_unpack_array(*items) == Ok::<Seq<ItemSpec>, ErrSpec>(ts@.map_values(|t: ItemType| t@)),
            Err(e) => spec_unpack_array(*items) == Err::<Seq<ItemSpec>, ErrSpec>(e@),
        },
{
    match get_field(items, "$ref") {
        Some(ref_value) => {
            match extract_type_from_ref(ref_value) {
                Ok(t) => {
                    let mut v: Vec<ItemType> = Vec::new();
                    v.push(t);
                    proof {
                        assert(v@.map_values(|t: ItemType| t@) =~= seq![v@[0]@]);
                    }
                    return Ok(v);
                },
                Err(e) => {
                    return Err(e);
                },
            }
        },
        None => {},
    }
    if get_field(items, "type").is_some() {
        let mut v: Vec<ItemType> = Vec::new();
        v.push(ItemType::Primitive);
        proof {
            assert(v@.map_values(|t: ItemType| t@) =~= seq![ItemSpec::Primitive]);
        }
        return Ok(v);
    }
    let array = match get_field(items, "anyOf") {
        None => {
            return Err(ParsingError::not_found("anyOf"));
        },
        Some(a) => match a {
            JsonValue::Array(alternatives) => alternatives,
            _ => {
                return Err(ParsingError::invalid_type("anyOf", "array"));
            },
        },
    };
    let mut extracted: Vec<ItemType> = Vec::new();
    let mut i: usize = 0;
    proof {
        assert(array@.skip(0) =~= array@);
        assert(extracted@.map_values(|t: ItemType| t@) =~= Seq::<ItemSpec>::empty());
    }
    while i < array.len()
        invariant
            spec_unpack_array(*items) == spec_any_of_items(array@),
            i <= array@.len(),
            spec_any_of_items(array@) == match spec_any_of_items(array@.skip(i as int)) {
                Err(e) => Err(e),
                Ok(rest) => Ok::<Seq<ItemSpec>, ErrSpec>(extracted@.map_values(|t: ItemType| t@) + rest),
            },
        decreases array@.len() - i,
    {
        let item = &array[i];
        proof {
            assert(array@.skip(i as int)[0] == array@[i as int]);
            assert(array@.skip(i as int).drop_first() =~= array@.skip(i + 1));
        }
        let child = match get_field(item, "$ref") {
            Some(ref_value) => {
                match extract_type_from_ref(ref_value) {
                    Ok(t) => t,
                    Err(e) => {
                        return Err(e);
                    },
                }
            },
            None => {
                if get_field(item, "type").is_some() {
                    ItemType::Primitive
                } else {
                    return Err(ParsingError::invalid_type("anyOf item", "object with $ref or type"));
                }
            },
        };
        let ghost before = extracted@.map_values(|t: ItemType| t@);
        extracted.push(child);
        proof {
            assert(extracted@.map_values(|t: ItemType| t@) =~= before.push(child@));
            assert forall|rest: Seq<ItemSpec>| before + (seq![child@] + rest) =~= before.push(child@) + rest by {}
        }
        i += 1;
    }
    proof {
        assert(array@.skip(i as int) =~= Seq::<JsonValue>::empty());
        assert(extracted@.map_values(|t: ItemType| t@) + Seq::<ItemSpec>::empty() =~= extracted@.map_values(|t: ItemType| t@));
    }
    Ok(extracted)
}


/// The member `field` of `value`, required to be an object.
pub open spec fn spec_required_object(value: JsonValue, field: Seq<char>) -> Result<Seq<(String, JsonValue)>, ErrSpec> {
    match json_get(value, field) {
        None => Err(ErrSpec::FieldNotFound(field)),
        Some(JsonValue::Object(members)) => Ok(members@),
        Some(_) => Err(ErrSpec::InvalidType(field, "object"@)),
    }
}

/// The member `field_name` of `value`, which must be an object.
fn get_required_object_field<'a>(value: &'a JsonValue, field_name: &str) -> (r: Result<&'a Vec<(String, JsonValue)>, ParsingError>)
    ensures
        match r {
            Ok(m) => spec_required_object(*value, field_name@) == Ok::<Seq<(String, JsonValue)>, ErrSpec>(m@),
            Err(e) => spec_required_object(*value, field_name@) == Err::<Seq<(String, JsonValue)>, ErrSpec>(e@),
        },
{
    match get_field(value, field_name) {
        None => Err(ParsingError::not_found(field_name)),
        Some(field_value) => match field_value {
            JsonValue::Object(members) => Ok(members),
            _ => Err(ParsingError::invalid_type(field_name, "object")),
        },
    }
}

/// The member `field` of `value`, required to be a string.
pub open spec fn spec_required_string(value: JsonValue, field: Seq<char>) -> Result<Seq<char>, ErrSpec> {
    match json_get(value, field) {
        None => Err(ErrSpec::FieldNotFound(field)),
        Some(JsonValue::String(s)) => Ok(s@),
        Some(_) => Err(ErrSpec::InvalidType(field, "string"@)),
    }
}

/// The member `field_name` of `value`, which must be a string.
fn get_required_string_field<'a>(value: &'a JsonValue, field_name: &str) -> (r: Result<&'a str, ParsingError>)
    ensures
        match r {
            Ok(s) => spec_required_string(*value, field_name@) == Ok::<Seq<char>, ErrSpec>(s@),
            Err(e) => spec_required_string(*value, field_name@) == Err::<Seq<char>, ErrSpec>(e@),
        },
{
    match get_field(value, field_name) {
        None => Err(ParsingError::not_found(field_name)),
        Some(field_value) => match field_value {
            JsonValue::String(s) => Ok(s.as_str()),
            _ => Err(ParsingError::invalid_type(field_name, "string")),
        },
    }
}

/// What a property holds, from its definition: a reference by `$ref`, an
/// array by `items`, a primitive otherwise.
pub open spec fn spec_child(def: JsonValue) -> Result<ChildSpec, ErrSpec> {
    match spec_required_string(def, "$ref"@) {
        Ok(reference) => Ok(ChildSpec::Type(ref_type_name(reference))),
        Err(_) => match json_get(def, "items"@) {
            Some(items) => match spec_unpack_array(items) {
                Ok(ts) => Ok(ChildSpec::Array(ts)),
                Err(e) => Err(e),
            },
            None => Ok(ChildSpec::Primitive),
        },
    }
}

/// The properties, in order; the first bad one is the error.
pub open spec fn spec_unpack_properties(props: Seq<(String, JsonValue)>) -> Result<Seq<(Seq<char>, ChildSpec)>, ErrSpec>
    decreases props.len(),
{
    if props.len() == 0 {
        Ok(Seq::empty())
    } else {
        match spec_child(props[0].1) {
            Err(e) => Err(e),
            Ok(c) => match spec_unpack_properties(props.drop_first()) {
                Err(e) => Err(e),
                Ok(rest) => Ok(seq![(props[0].0@, c)] + rest),
            },
        }
    }
}

/// The views of a list of children.
pub open spec fn children_view(cs: Seq<JsonChild>) -> Seq<(Seq<char>, ChildSpec)> {
    cs.map_values(|c: JsonChild| c@)
}

/// The children of a type definition, from its `properties`.
fn unpack_properties(properties: &Vec<(String, JsonValue)>) -> (r: Result<Vec<JsonChild>, ParsingError>)
    ensures
        match r {
            Ok(cs) => spec_unpack_properties(properties@) == Ok::<Seq<(Seq<char>, ChildSpec)>, ErrSpec>(children_view(cs@)),
            Err(e) => spec_unpack_properties(properties@) == Err::<Seq<(Seq<char>, ChildSpec)>, ErrSpec>(e@),
        },
{
    let mut children: Vec<JsonChild> = Vec::new();
    let mut i: usize = 0;
    proof {
        assert(properties@.skip(0) =~= properties@);
        assert(children_view(children@) =~= Seq::<(Seq<char>, ChildSpec)>::empty());
    }
    while i < properties.len()
        invariant
            i <= properties@.len(),
            spec_unpack_properties(properties@) == match spec_unpack_properties(properties@.skip(i as int)) {
                Err(e) => Err(e),
                Ok(rest) => Ok::<Seq<(Seq<char>, ChildSpec)>, ErrSpec>(children_view(children@) + rest),
            },
        decreases properties@.len() - i,
    {
        let label = &properties[i].0;
        let child_def = &properties[i].1;
        proof {
            assert(properties@.skip(i as int)[0] == properties@[i as int]);
            assert(properties@.skip(i as int).drop_first() =~= properties@.skip(i + 1));
        }
        let child = match get_required_string_field(child_def, "$ref") {
            Ok(reference) => {
                let name = get_type_name_from_ref(reference);
                JsonChild { label: label.clone(), child_type: ChildType::Type(name.to_owned()) }
            },
            Err(_) => match get_field(child_def, "items") {
                Some(items) => match unpack_array(items) {
                    Ok(types) => JsonChild { label: label.clone(), child_type: ChildType::Array(types) },
                    Err(e) => {
                        return Err(e);
                    },
                },
                None => JsonChild { label: label.clone(), child_type: ChildType::Primitive },
            },
        };
        let ghost before = children_view(children@);
        proof {
            assert(child@.0 == properties@[i as int].0@);
            assert(spec_child(properties@[i as int].1) == Ok::<ChildSpec, ErrSpec>(child@.1));
        }
        children.push(child);
        proof {
            assert(children_view(children@) =~= before.push(child@));
            assert forall|rest: Seq<(Seq<char>, ChildSpec)>| before + (seq![child@] + rest) =~= before.push(child@) + rest by {}
        }
        i += 1;
    }
    proof {
        assert(properties@.skip(i as int) =~= Seq::<(String, JsonValue)>::empty());
        assert(children_view(children@) + Seq::<(Seq<char>, ChildSpec)>::empty() =~= children_view(children@));
    }
    Ok(children)
}

/// A type definition: it must say `"type": "object"` and
/// `"additionalProperties": false`, and have `properties`.
pub open spec fn spec_process_type(name: Seq<char>, def: JsonValue) -> Result<TypeSpec, ErrSpec> {
    match json_get(def, "type"@) {
        None => Err(ErrSpec::FieldNotFound("type for '"@ + name + "'"@)),
        Some(t) => if !(t matches JsonValue::String(s) && s@ == "object"@) {
            Err(ErrSpec::InvalidType(name, "object"@))
        } else {
            match json_get(def, "additionalProperties"@) {
                None => Err(ErrSpec::FieldNotFound("additionalProperties for '"@ + name + "'"@)),
                Some(ap) => if !(ap matches JsonValue::Bool(b) && !b) {
                    Err(ErrSpec::InvalidType(name, "additionalProperties set to false"@))
                } else {
                    match spec_required_object(def, "properties"@) {
                        Err(e) => Err(e),
                        Ok(props) => match spec_unpack_properties(props) {
                            Err(e) => Err(e),
                            Ok(cs) => Ok(TypeSpec { name, props: cs, additional: false, fake: false }),
                        },
                    }
                },
            }
        },
    }
}

/// Reads one type definition of `$defs`.
fn process_type(definition: (&String, &JsonValue)) -> (r: Result<SchemaType, ParsingError>)
    ensures
        match r {
            Ok(t) => spec_process_type(definition.0@, *definition.1) == Ok::<TypeSpec, ErrSpec>(t@),
            Err(e) => spec_process_type(definition.0@, *definition.1) == Err::<TypeSpec, ErrSpec>(e@),
        },
{
    let (name, type_def) = definition;
    match get_field(type_def, "type") {
        Some(type_value) => {
            let is_object = match type_value {
                JsonValue::String(s) => s.as_str().to_owned() == "object".to_owned(),
                _ => false,
            };
            if !is_object {
                return Err(ParsingError::invalid_type(name.as_str(), "object"));
            }
        },
        None => {
            let mut field = "type for '".to_owned();
            field.append(name.as_str());
            field.append("'");
            return Err(ParsingError::not_found(field.as_str()));
        },
    }
    match get_field(type_def, "additionalProperties") {
        Some(additional_properties) => {
            let is_false = match additional_properties {
                JsonValue::Bool(b) => !*b,
                _ => false,
            };
            if !is_false {
                return Err(ParsingError::invalid_type(name.as_str(), "additionalProperties set to false"));
            }
        },
        None => {
            let mut field = "additionalProperties for '".to_owned();
            field.append(name.as_str());
            field.append("'");
            return Err(ParsingError::not_found(field.as_str()));
        },
    }
    let properties = get_required_object_field(type_def, "properties")?;
    let child_map = unpack_properties(properties)?;
    Ok(SchemaType::new(name.clone(), child_map, false))
}


/// The property that an array element of kind `it` is.
pub open spec fn item_child(it: ItemSpec) -> ChildSpec {
    match it {
        ItemSpec::Type(n) => ChildSpec::Type(n),
        ItemSpec::Primitive => ChildSpec::Primitive,
    }
}

/// The type that stands for the elements of an array property: each kind
/// of element is an unnamed property.
pub open spec fn fake_type(name: Seq<char>, items: Seq<ItemSpec>) -> TypeSpec {
    TypeSpec {
        name,
        props: items.map_values(|it: ItemSpec| (Seq::<char>::empty(), item_child(it))),
        additional: false,
        fake: true,
    }
}

/// Unrolls the array properties of the type `owner`: the types for their
/// elements, named `owner`, the property's name and `[]`, and the properties
/// with each array replaced by a reference to its type.
pub open spec fn unroll_props(owner: Seq<char>, props: Seq<(Seq<char>, ChildSpec)>) -> (Seq<TypeSpec>, Seq<(Seq<char>, ChildSpec)>)
    decreases props.len(),
{
    if props.len() == 0 {
        (Seq::empty(), Seq::empty())
    } else {
        let (fakes, children) = unroll_props(owner, props.drop_last());
        let p = props.last();
        match p.1 {
            ChildSpec::Array(items) => {
                let fname = owner + p.0 + "[]"@;
                (fakes.push(fake_type(fname, items)), children.push((p.0, ChildSpec::Type(fname))))
            },
            _ => (fakes, children.push(p)),
        }
    }
}

/// All types with their arrays unrolled: each type is preceded by the types
/// of its array properties.
pub open spec fn spec_unroll(types: Seq<TypeSpec>) -> Seq<TypeSpec>
    decreases types.len(),
{
    if types.len() == 0 {
        Seq::empty()
    } else {
        let t = types.last();
        let (fakes, children) = unroll_props(t.name, t.props);
        spec_unroll(types.drop_last()) + fakes.push(TypeSpec { name: t.name, props: children, additional: t.additional, fake: false })
    }
}

/// The views of a list of types.
pub open spec fn types_view(ts: Seq<SchemaType>) -> Seq<TypeSpec> {
    ts.map_values(|t: SchemaType| t@)
}

/// The property that an array element is.
fn new_array_child(item_type: &ItemType) -> (r: JsonChild)
    ensures
        r@ == (Seq::<char>::empty(), item_child(item_type@)),
{
    let child_type = match item_type {
        ItemType::Type(t) => ChildType::Type(t.clone()),
        ItemType::Primitive => ChildType::Primitive,
    };
    JsonChild { label: String::new(), child_type }
}

/// A copy of a property.
fn copy_child(c: &JsonChild) -> (r: JsonChild)
    ensures
        r@ == c@,
{
    let child_type = match &c.child_type {
        ChildType::Type(t) => ChildType::Type(t.clone()),
        ChildType::Array(items) => {
            let mut copied: Vec<ItemType> = Vec::new();
            let mut i: usize = 0;
            while i < items.len()
                invariant
                    i <= items@.len(),
                    copied@.map_values(|t: ItemType| t@) =~= items@.take(i as int).map_values(|t: ItemType| t@),
                decreases items@.len() - i,
            {
                let it = match &items[i] {
                    ItemType::Type(n) => ItemType::Type(n.clone()),
                    ItemType::Primitive => ItemType::Primitive,
                };
                copied.push(it);
                proof {
                    assert(items@.take(i + 1).map_values(|t: ItemType| t@) =~= items@.take(i as int).map_values(|t: ItemType| t@).push(items@[i as int]@));
                }
                i += 1;
            }
            proof {
                assert(items@.take(items@.len() as int) =~= items@);
            }
            ChildType::Array(copied)
        },
        ChildType::Primitive => ChildType::Primitive,
    };
    JsonChild { label: c.label.clone(), child_type }
}

/// Adds a type for the elements of each array property, just before the
/// type that has the property, and makes the property refer to it.
fn unroll_arrays(types: Vec<SchemaType>) -> (r: Result<Vec<SchemaType>, ParsingError>)
    ensures
        r matches Ok(u) && types_view(u@) == spec_unroll(types_view(types@)),
{
    let mut unrolled: Vec<SchemaType> = Vec::new();
    let mut ti: usize = 0;
    while ti < types.len()
        invariant
            ti <= types@.len(),
            types_view(unrolled@) == spec_unroll(types_view(types@.take(ti as int))),
        decreases types@.len() - ti,
    {
        let t = &types[ti];
        let ghost tv = t@;
        let mut children: Vec<JsonChild> = Vec::new();
        let ghost start = types_view(unrolled@);
        let mut ci: usize = 0;
        while ci < t.properties.len()
            invariant
                tv == t@,
                ci <= t.properties@.len(),
                types_view(unrolled@) == start + unroll_props(tv.name, children_view(t.properties@.take(ci as int))).0,
                children_view(children@) == unroll_props(tv.name, children_view(t.properties@.take(ci as int))).1,
            decreases t.properties@.len() - ci,
        {
            let child = &t.properties[ci];
            let ghost before_u = types_view(unrolled@);
            let ghost before_c = children_view(children@);
            proof {
                assert(children_view(t.properties@.take(ci + 1)).drop_last() =~= children_view(t.properties@.take(ci as int)));
                assert(children_view(t.properties@.take(ci + 1)).last() == child@);
            }
            match &child.child_type {
                ChildType::Array(item_types) => {
                    let mut array_name = t.name.clone();
                    array_name.append(child.label.as_str());
                    array_name.append("[]");
                    let mut properties: Vec<JsonChild> = Vec::new();
                    let mut k: usize = 0;
                    while k < item_types.len()
                        invariant
                            k <= item_types@.len(),
                            children_view(properties@) =~= item_types@.take(k as int).map_values(|it: ItemType| it@).map_values(
                                |it: ItemSpec| (Seq::<char>::empty(), item_child(it)),
                            ),
                        decreases item_types@.len() - k,
                    {
                        let c = new_array_child(&item_types[k]);
                        let ghost before_p = children_view(properties@);
                        properties.push(c);
                        proof {
                            let f = |it: ItemSpec| (Seq::<char>::empty(), item_child(it));
                            let pre = item_types@.take(k as int).map_values(|it: ItemType| it@);
                            let post = item_types@.take(k + 1).map_values(|it: ItemType| it@);
                            assert(post =~= pre.push(item_types@[k as int]@));
                            assert(post.map_values(f) =~= pre.map_values(f).push(f(item_types@[k as int]@)));
                            assert(children_view(properties@) =~= before_p.push(c@));
                        }
                        k += 1;
                    }
                    proof {
                        assert(item_types@.take(item_types@.len() as int) =~= item_types@);
                    }
                    let fake = SchemaType::fake(array_name.clone(), properties);
                    unrolled.push(fake);
                    children.push(JsonChild { label: child.label.clone(), child_type: ChildType::Type(array_name) });
                },
                _ => {
                    children.push(copy_child(child));
                },
            }
            proof {
                assert(types_view(unrolled@) =~= before_u + (types_view(unrolled@).skip(before_u.len() as int)));
                let ps = children_view(t.properties@.take(ci + 1));
                let prev = unroll_props(tv.name, ps.drop_last());
                match child@.1 {
                    ChildSpec::Array(items) => {
                        assert(types_view(unrolled@) =~= before_u.push(fake_type(tv.name + child@.0 + "[]"@, items)));
                        assert(children_view(children@) =~= before_c.push((child@.0, ChildSpec::Type(tv.name + child@.0 + "[]"@))));
                    },
                    _ => {
                        assert(types_view(unrolled@) =~= before_u);
                        assert(children_view(children@) =~= before_c.push(child@));
                    },
                }
            }
            ci += 1;
        }
        proof {
            assert(t.properties@.take(t.properties@.len() as int) =~= t.properties@);
            assert(children_view(t.properties@) == tv.props);
        }
        let ghost before_u = types_view(unrolled@);
        unrolled.push(SchemaType::new(t.name.clone(), children, t.additional_properties));
        proof {
            assert(types_view(types@.take(ti + 1)).drop_last() =~= types_view(types@.take(ti as int)));
            assert(types_view(types@.take(ti + 1)).last() == tv);
            assert(types_view(unrolled@) =~= before_u.push(types_view(unrolled@).last()));
        }
        ti += 1;
    }
    proof {
        assert(types@.take(types@.len() as int) =~= types@);
    }
    Ok(unrolled)
}


/// Position of the last type named `n`, or -1 if there is none.
pub open spec fn last_type_index(types: Seq<TypeSpec>, n: Seq<char>) -> int
    decreases types.len(),
{
    if types.len() == 0 {
        -1
    } else if types.last().name == n {
        types.len() - 1
    } else {
        last_type_index(types.drop_last(), n)
    }
}

proof fn lemma_last_type_index(types: Seq<TypeSpec>, n: Seq<char>)
    ensures
        -1 <= last_type_index(types, n) < types.len(),
        last_type_index(types, n) >= 0 ==> types[last_type_index(types, n)].name == n,
    decreases types.len(),
{
    if types.len() > 0 && types.last().name != n {
        lemma_last_type_index(types.drop_last(), n);
    }
}

/// The state a property leads to: 0 for a primitive, the state of the last
/// type of that name for a reference (-1 if there is no such type).
pub open spec fn child_target(types: Seq<TypeSpec>, c: ChildSpec) -> int {
    match c {
        ChildSpec::Type(n) => if last_type_index(types, n) >= 0 { 2 + last_type_index(types, n) } else { -1 },
        _ => 0,
    }
}

/// The first property of `owner` that refers to a type that does not exist.
pub open spec fn missing_in_props(types: Seq<TypeSpec>, owner: Seq<char>, props: Seq<(Seq<char>, ChildSpec)>) -> Option<ErrSpec>
    decreases props.len(),
{
    if props.len() == 0 {
        None
    } else {
        match props[0].1 {
            ChildSpec::Type(n) => if last_type_index(types, n) < 0 {
                Some(ErrSpec::TypeNotFound(owner, n))
            } else {
                missing_in_props(types, owner, props.drop_first())
            },
            _ => missing_in_props(types, owner, props.drop_first()),
        }
    }
}

/// The first reference, in the order of the types of `ts` and of their
/// properties, to a type that `types` does not define.
pub open spec fn first_missing(types: Seq<TypeSpec>, ts: Seq<TypeSpec>) -> Option<ErrSpec>
    decreases ts.len(),
{
    if ts.len() == 0 {
        None
    } else {
        match missing_in_props(types, ts[0].name, ts[0].props) {
            Some(e) => Some(e),
            None => first_missing(types, ts.drop_first()),
        }
    }
}

/// The state of type `t`: accepting, falling back to the rejecting state 1;
/// a type for array elements has an array transition `[*]` per property,
/// any other type a member transition per property.
pub open spec fn schema_state_ok(types: Seq<TypeSpec>, t: TypeSpec, st: StateTable) -> bool {
    &&& st.accepting
    &&& st.fallback_state == 1
    &&& if t.fake {
        &&& st.member_transitions@.len() == 0
        &&& st.array_transitions@.len() == t.props.len()
        &&& forall|k: int| 0 <= k < t.props.len() ==> (#[trigger] st.array_transitions@[k]).label
            == (ArrayLabel::Slice { start: 0, end: None, step: 1 }) && st.array_transitions@[k].target == child_target(types, t.props[k].1)
    } else {
        &&& st.array_transitions@.len() == 0
        &&& st.member_transitions@.len() == t.props.len()
        &&& forall|k: int| 0 <= k < t.props.len() ==> (#[trigger] st.member_transitions@[k]).0@ == t.props[k].0
            && st.member_transitions@[k].1 == child_target(types, t.props[k].1)
    }
}

/// The automaton of the types: state 0 an accepting leaf, state 1 a
/// rejecting state, state `2 + i` the state of the `i`-th type.
pub open spec fn schema_automaton_ok(types: Seq<TypeSpec>, a: &Automaton) -> bool {
    &&& a.states@.len() == types.len() + 2
    &&& a.states@[0].accepting
    &&& a.states@[0].member_transitions@.len() == 0
    &&& a.states@[0].array_transitions@.len() == 0
    &&& a.states@[0].fallback_state == 0
    &&& !a.states@[1].accepting
    &&& a.states@[1].member_transitions@.len() == 0
    &&& a.states@[1].array_transitions@.len() == 0
    &&& a.states@[1].fallback_state == 1
    &&& forall|q: int| 2 <= q < a.states@.len() ==> schema_state_ok(types, types[q - 2], #[trigger] a.states@[q])
}

/// No property is an array.
pub open spec fn no_array_props(types: Seq<TypeSpec>) -> bool {
    forall|i: int, k: int| 0 <= i < types.len() && 0 <= k < types[i].props.len() ==> !((#[trigger] types[i].props[k]).1 is Array)
}

/// The state of the last type named `name`.
fn type_state(types: &Vec<SchemaType>, name: &String) -> (r: Option<usize>)
    requires
        types@.len() <= 253,
    ensures
        match r {
            Some(q) => q == 2 + last_type_index(types_view(types@), name@) && last_type_index(types_view(types@), name@) >= 0,
            None => last_type_index(types_view(types@), name@) < 0,
        },
{
    let mut found: Option<usize> = None;
    let mut i: usize = 0;
    while i < types.len()
        invariant
            types@.len() <= 253,
            i <= types@.len(),
            match found {
                Some(q) => q == 2 + last_type_index(types_view(types@.take(i as int)), name@) && last_type_index(types_view(types@.take(i as int)), name@) >= 0,
                None => last_type_index(types_view(types@.take(i as int)), name@) < 0,
            },
        decreases types@.len() - i,
    {
        proof {
            assert(types_view(types@.take(i + 1)).drop_last() =~= types_view(types@.take(i as int)));
            assert(types_view(types@.take(i + 1)).last() == types@[i as int]@);
            lemma_last_type_index(types_view(types@.take(i as int)), name@);
        }
        if types[i].name == *name {
            found = Some(2 + i);
        }
        i += 1;
    }
    proof {
        assert(types@.take(types@.len() as int) =~= types@);
    }
    found
}

/// Builds the automaton of the types (see [`schema_automaton_ok`]); fails
/// on the first reference to a type that does not exist.
fn construct_automaton_from_types(types: &Vec<SchemaType>) -> (r: Result<Automaton, ParsingError>)
    requires
        types@.len() <= 253,
        no_array_props(types_view(types@)),
    ensures
        match r {
            Ok(a) => first_missing(types_view(types@), types_view(types@)) is None && schema_automaton_ok(types_view(types@), &a),
            Err(e) => first_missing(types_view(types@), types_view(types@)) == Some(e@),
        },
{
    let ghost tv = types_view(types@);
    let mut states: Vec<StateTable> = Vec::new();
    states.push(StateTable::new(true, Vec::new(), Vec::new(), 0));
    states.push(StateTable::new(false, Vec::new(), Vec::new(), 1));
    let mut i: usize = 0;
    proof {
        assert(tv.skip(0) =~= tv);
    }
    while i < types.len()
        invariant
            types@.len() <= 253,
            tv == types_view(types@),
            no_array_props(tv),
            i <= types@.len(),
            first_missing(tv, tv) == first_missing(tv, tv.skip(i as int)),
            states@.len() == i + 2,
            states@[0].accepting && states@[0].member_transitions@.len() == 0 && states@[0].array_transitions@.len() == 0
                && states@[0].fallback_state == 0,
            !states@[1].accepting && states@[1].member_transitions@.len() == 0 && states@[1].array_transitions@.len() == 0
                && states@[1].fallback_state == 1,
            forall|q: int| 2 <= q < states@.len() ==> schema_state_ok(tv, tv[q - 2], #[trigger] states@[q]),
        decreases types@.len() - i,
    {
        let t = &types[i];
        let ghost ts = tv[i as int];
        proof {
            assert(tv.skip(i as int)[0] == ts);
            assert(tv.skip(i as int).drop_first() =~= tv.skip(i + 1));
            assert(ts.props.skip(0) =~= ts.props);
        }
        let mut members: Vec<MemberTransition> = Vec::new();
        let mut arrays: Vec<ArrayTransition> = Vec::new();
        let mut k: usize = 0;
        while k < t.properties.len()
            invariant
                types@.len() <= 253,
                tv == types_view(types@),
                no_array_props(tv),
                i < types@.len(),
                ts == tv[i as int],
                ts == t@,
                k <= t.properties@.len(),
                missing_in_props(tv, ts.name, ts.props) == missing_in_props(tv, ts.name, ts.props.skip(k as int)),
                first_missing(tv, tv) == first_missing(tv, tv.skip(i as int)),
                tv.skip(i as int)[0] == ts,
                ts.fake ==> members@.len() == 0 && arrays@.len() == k,
                !ts.fake ==> arrays@.len() == 0 && members@.len() == k,
                forall|kk: int| 0 <= kk < k && ts.fake ==> (#[trigger] arrays@[kk]).label
                    == (ArrayLabel::Slice { start: 0, end: None, step: 1 }) && arrays@[kk].target == child_target(tv, ts.props[kk].1),
                forall|kk: int| 0 <= kk < k && !ts.fake ==> (#[trigger] members@[kk]).0@ == ts.props[kk].0
                    && members@[kk].1 == child_target(tv, ts.props[kk].1),
            decreases t.properties@.len() - k,
        {
            let child = &t.properties[k];
            proof {
                assert(ts.props[k as int] == child@);
                assert(ts.props.skip(k as int)[0] == child@);
                assert(ts.props.skip(k as int).drop_first() =~= ts.props.skip(k + 1));
                assert(!(tv[i as int].props[k as int].1 is Array));
            }
            let child_idx: usize = match &child.child_type {
                ChildType::Type(name) => {
                    match type_state(types, name) {
                        Some(q) => q,
                        None => {
                            proof {
                                assert(child@.1 == ChildSpec::Type(name@));
                                assert(missing_in_props(tv, ts.name, ts.props.skip(k as int)) == Some(ErrSpec::TypeNotFound(ts.name, name@)));
                                assert(first_missing(tv, tv.skip(i as int)) == Some(ErrSpec::TypeNotFound(ts.name, name@)));
                            }
                            let e = ParsingError::type_not_found(t.name.as_str(), name.as_str());
                            assert(e@ == ErrSpec::TypeNotFound(ts.name, name@));
                            assert(first_missing(tv, tv) == Some(e@));
                            return Err(e);
                        },
                    }
                },
                _ => 0,
            };
            if t.fake_type {
                arrays.push(new_array_transition(child_idx));
            } else {
                members.push(new_member_transition(child.label.as_str(), child_idx));
            }
            k += 1;
        }
        let st = StateTable::new(true, members, arrays, 1);
        proof {
            assert(ts.props.skip(k as int) =~= Seq::<(Seq<char>, ChildSpec)>::empty());
        }
        let ghost before = states@;
        states.push(st);
        proof {
            assert forall|q: int| 2 <= q < states@.len() implies schema_state_ok(tv, tv[q - 2], #[trigger] states@[q]) by {
                if q < states@.len() - 1 {
                    assert(states@[q] == before[q]);
                }
            }
        }
        i += 1;
    }
    proof {
        assert(tv.skip(i as int) =~= Seq::<TypeSpec>::empty());
    }
    Ok(Automaton::from_states(states))
}


/// The first name, from position `j` on, that repeats an earlier name.
pub open spec fn duplicate_from(v: Seq<Seq<char>>, j: int) -> Option<Seq<char>>
    decreases v.len() - j,
{
    if j < 0 || j >= v.len() {
        None
    } else if v.take(j).contains(v[j]) {
        Some(v[j])
    } else {
        duplicate_from(v, j + 1)
    }
}

/// The names of a list of strings.
pub open spec fn names_view(v: Seq<String>) -> Seq<Seq<char>> {
    v.map_values(|s: String| s@)
}

/// The first name that repeats an earlier one.
fn find_duplicate_in_vec(vec: &[String]) -> (r: Option<String>)
    ensures
        match r {
            Some(d) => duplicate_from(names_view(vec@), 0) == Some(d@),
            None => duplicate_from(names_view(vec@), 0) is None,
        },
{
    let ghost nv = names_view(vec@);
    let mut j: usize = 0;
    while j < vec.len()
        invariant
            nv == names_view(vec@),
            j <= vec@.len(),
            duplicate_from(nv, 0) == duplicate_from(nv, j as int),
        decreases vec@.len() - j,
    {
        let mut i: usize = 0;
        let mut seen = false;
        while i < j && !seen
            invariant
                nv == names_view(vec@),
                j < vec@.len(),
                i <= j,
                seen ==> nv.take(j as int).contains(nv[j as int]),
                !seen ==> forall|m: int| 0 <= m < i ==> nv[m] != nv[j as int],
            decreases j - i,
        {
            if vec[i] == vec[j] {
                seen = true;
                proof {
                    assert(nv.take(j as int)[i as int] == nv[j as int]);
                }
            }
            i += 1;
        }
        if seen {
            return Some(vec[j].clone());
        }
        proof {
            assert(!nv.take(j as int).contains(nv[j as int])) by {
                if nv.take(j as int).contains(nv[j as int]) {
                    let m = choose|m: int| 0 <= m < j && nv.take(j as int)[m] == nv[j as int];
                }
            }
        }
        j += 1;
    }
    None
}

/// The types of `$defs`, in order; the first bad definition is the error.
pub open spec fn spec_defs_types(defs: Seq<(String, JsonValue)>) -> Result<Seq<TypeSpec>, ErrSpec>
    decreases defs.len(),
{
    if defs.len() == 0 {
        Ok(Seq::empty())
    } else {
        match spec_process_type(defs[0].0@, defs[0].1) {
            Err(e) => Err(e),
            Ok(t) => match spec_defs_types(defs.drop_first()) {
                Err(e) => Err(e),
                Ok(rest) => Ok(seq![t] + rest),
            },
        }
    }
}

/// The types that a schema defines, arrays unrolled, or the first error:
/// the text is not JSON, `$defs` is missing or not an object, a definition
/// is bad, or a name is defined twice.
pub open spec fn spec_schema_types(parsed: Option<JsonValue>) -> Result<Seq<TypeSpec>, ErrSpec> {
    match parsed {
        None => Err(ErrSpec::InvalidJson),
        Some(schema) => match spec_required_object(schema, "$defs"@) {
            Err(e) => Err(e),
            Ok(defs) => match spec_defs_types(defs) {
                Err(e) => Err(e),
                Ok(types) => match duplicate_from(types.map_values(|t: TypeSpec| t.name), 0) {
                    Some(d) => Err(ErrSpec::DuplicateType(d)),
                    None => Ok(spec_unroll(types)),
                },
            },
        },
    }
}

/// The types that a schema defines, or the first error, including a
/// reference to a type that does not exist.
pub open spec fn spec_schema(parsed: Option<JsonValue>) -> Result<Seq<TypeSpec>, ErrSpec> {
    match spec_schema_types(parsed) {
        Err(e) => Err(e),
        Ok(types) => match first_missing(types, types) {
            Some(e) => Err(e),
            None => Ok(types),
        },
    }
}

/// After unrolling, no property is an array.
proof fn lemma_unroll_props_no_arrays(owner: Seq<char>, props: Seq<(Seq<char>, ChildSpec)>)
    ensures
        no_array_props(unroll_props(owner, props).0),
        forall|k: int| 0 <= k < unroll_props(owner, props).1.len() ==> !((#[trigger] unroll_props(owner, props).1[k]).1 is Array),
    decreases props.len(),
{
    if props.len() > 0 {
        lemma_unroll_props_no_arrays(owner, props.drop_last());
        let (fakes, children) = unroll_props(owner, props.drop_last());
        let p = props.last();
        match p.1 {
            ChildSpec::Array(items) => {
                let f = fake_type(owner + p.0 + "[]"@, items);
                let nf = fakes.push(f);
                assert(unroll_props(owner, props).0 == nf);
                assert forall|i: int, k: int| 0 <= i < nf.len() && 0 <= k < nf[i].props.len() implies !((#[trigger] nf[i].props[k]).1 is Array) by {
                    if i == nf.len() - 1 {
                        assert(nf[i] == f);
                        assert(f.props.len() == items.len());
                        assert(f.props[k] == (Seq::<char>::empty(), item_child(items[k])));
                        match items[k] {
                            ItemSpec::Type(n) => {
                                assert(f.props[k].1 == ChildSpec::Type(n));
                            },
                            ItemSpec::Primitive => {
                                assert(f.props[k].1 == ChildSpec::Primitive);
                            },
                        }
                    } else {
                        assert(nf[i] == fakes[i]);
                        assert(!(fakes[i].props[k].1 is Array));
                    }
                }
            },
            _ => {},
        }
    }
}

proof fn lemma_unroll_no_arrays(types: Seq<TypeSpec>)
    ensures
        no_array_props(spec_unroll(types)),
    decreases types.len(),
{
    if types.len() > 0 {
        lemma_unroll_no_arrays(types.drop_last());
        let t = types.last();
        lemma_unroll_props_no_arrays(t.name, t.props);
        let (fakes, children) = unroll_props(t.name, t.props);
        let a = spec_unroll(types.drop_last());
        let b = fakes.push(TypeSpec { name: t.name, props: children, additional: t.additional, fake: false });
        assert(spec_unroll(types) == a + b);
        assert forall|i: int, k: int| 0 <= i < (a + b).len() && 0 <= k < (a + b)[i].props.len() implies !((#[trigger] (a + b)[i].props[k]).1 is Array) by {
            if i < a.len() {
                assert((a + b)[i] == a[i]);
                assert(!(a[i].props[k].1 is Array));
            } else if i < a.len() + fakes.len() {
                assert((a + b)[i] == fakes[i - a.len()]);
                assert(!(fakes[i - a.len()].props[k].1 is Array));
            } else {
                assert((a + b)[i] == b[i - a.len()]);
                assert(b[i - a.len()].props == children);
                assert(!(children[k].1 is Array));
            }
        }
    }
}

/// The types of the schema `json_schema`, arrays unrolled.
fn schema_types(json_schema: &str) -> (r: Result<Vec<SchemaType>, ParsingError>)
    ensures
        match r {
            Ok(ts) => spec_schema_types(parsed_json(json_schema@)) == Ok::<Seq<TypeSpec>, ErrSpec>(types_view(ts@)),
            Err(e) => spec_schema_types(parsed_json(json_schema@)) == Err::<Seq<TypeSpec>, ErrSpec>(e@),
        },
{
    let schema = match parse_json(json_schema) {
        Ok(s) => s,
        Err(e) => {
            return Err(ParsingError::invalid_json(e));
        },
    };
    let defs = get_required_object_field(&schema, "$defs")?;
    let mut types: Vec<SchemaType> = Vec::new();
    let mut i: usize = 0;
    proof {
        assert(defs@.skip(0) =~= defs@);
        assert(types_view(types@) =~= Seq::<TypeSpec>::empty());
    }
    while i < defs.len()
        invariant
            parsed_json(json_schema@) == Some(schema),
            spec_required_object(schema, "$defs"@) == Ok::<Seq<(String, JsonValue)>, ErrSpec>(defs@),
            i <= defs@.len(),
            spec_defs_types(defs@) == match spec_defs_types(defs@.skip(i as int)) {
                Err(e) => Err(e),
                Ok(rest) => Ok::<Seq<TypeSpec>, ErrSpec>(types_view(types@) + rest),
            },
        decreases defs@.len() - i,
    {
        proof {
            assert(defs@.skip(i as int)[0] == defs@[i as int]);
            assert(defs@.skip(i as int).drop_first() =~= defs@.skip(i + 1));
        }
        let t = match process_type((&defs[i].0, &defs[i].1)) {
            Ok(t) => t,
            Err(e) => {
                proof {
                    assert(spec_defs_types(defs@.skip(i as int)) == Err::<Seq<TypeSpec>, ErrSpec>(e@));
                }
                return Err(e);
            },
        };
        let ghost before = types_view(types@);
        types.push(t);
        proof {
            assert(types_view(types@) =~= before.push(t@));
            assert forall|rest: Seq<TypeSpec>| before + (seq![t@] + rest) =~= before.push(t@) + rest by {}
        }
        i += 1;
    }
    proof {
        assert(defs@.skip(i as int) =~= Seq::<(String, JsonValue)>::empty());
        assert(types_view(types@) + Seq::<TypeSpec>::empty() =~= types_view(types@));
    }
    let mut type_names: Vec<String> = Vec::new();
    let mut k: usize = 0;
    while k < types.len()
        invariant
            k <= types@.len(),
            names_view(type_names@) =~= types_view(types@).take(k as int).map_values(|t: TypeSpec| t.name),
        decreases types@.len() - k,
    {
        let ghost before = names_view(type_names@);
        type_names.push(types[k].name.clone());
        proof {
            let nm = |t: TypeSpec| t.name;
            assert(types_view(types@).take(k + 1) =~= types_view(types@).take(k as int).push(types@[k as int]@));
            assert(types_view(types@).take(k + 1).map_values(nm) =~= types_view(types@).take(k as int).map_values(nm).push(types@[k as int].name@));
            assert(names_view(type_names@) =~= before.push(types@[k as int].name@));
        }
        k += 1;
    }
    proof {
        assert(types_view(types@).take(types@.len() as int) =~= types_view(types@));
    }
    match find_duplicate_in_vec(type_names.as_slice()) {
        Some(duplicate) => {
            return Err(ParsingError::duplicate_type(duplicate.as_str()));
        },
        None => {},
    }
    unroll_arrays(types)
}

/// Reads a schema and builds its automaton (see [`schema_automaton_ok`]).
fn parse_json_schema(json_schema: &str) -> (r: Result<Automaton, ParsingError>)
    requires
        spec_schema_types(parsed_json(json_schema@)) matches Ok(types) ==> types.len() <= 253,
    ensures
        match r {
            Ok(a) => spec_schema(parsed_json(json_schema@)) matches Ok(types) && schema_automaton_ok(types, &a),
            Err(e) => spec_schema(parsed_json(json_schema@)) == Err::<Seq<TypeSpec>, ErrSpec>(e@),
        },
{
    let types = schema_types(json_schema)?;
    proof {
        let ghost p = parsed_json(json_schema@);
        let schema = p->Some_0;
        let defs = spec_required_object(schema, "$defs"@)->Ok_0;
        lemma_unroll_no_arrays(spec_defs_types(defs)->Ok_0);
    }
    construct_automaton_from_types(&types)
}

/// Reads the JSON Schema `json_schema` and builds the automaton of its
/// types: state 0 an accepting leaf, state 1 a rejecting state, then one
/// state per type, each array property's element type just before the type
/// that has it. Fails on the first error (see [`spec_schema`]). Read
/// against the schema, the automaton follows it property by property
/// ([`member_law`], [`element_law`]) wherever no two types get one name.
pub fn from_string(json_schema: &str) -> (r: Result<Automaton, ParsingError>)
    requires
        spec_schema_types(parsed_json(json_schema@)) matches Ok(types) ==> types.len() <= 253,
    ensures
        match r {
            Ok(a) => spec_schema(parsed_json(json_schema@)) matches Ok(types) && schema_automaton_ok(types, &a),
            Err(e) => spec_schema(parsed_json(json_schema@)) == Err::<Seq<TypeSpec>, ErrSpec>(e@),
        },
        r matches Ok(a) ==> (names_apart(schema_defs(parsed_json(json_schema@)->Some_0)) ==> {
            let defs = schema_defs(parsed_json(json_schema@)->Some_0);
            &&& forall|i: int, k: int| 0 <= i < defs.len() && 0 <= k < def_props(defs[i].1).len() ==> #[trigger] member_law(&a, defs, i, k)
            &&& forall|i: int, k: int| #[trigger] array_prop(defs, i, k) ==> element_law(&a, defs, i, k)
        }),
{
    let r = parse_json_schema(json_schema);
    proof {
        if let Ok(a) = &r {
            if names_apart(schema_defs(parsed_json(json_schema@)->Some_0)) {
                lemma_schema_automaton_follows_schema(json_schema@, a);
            }
        }
    }
    r
}

/// [`from_string`], or `None` when the schema has more types (arrays
/// unrolled) than the automaton can number.
pub fn try_from_string(json_schema: &str) -> (r: Option<Result<Automaton, ParsingError>>)
    ensures
        r is None <==> (spec_schema_types(parsed_json(json_schema@)) matches Ok(types) && types.len() > 253),
        r matches Some(res) ==> match res {
            Ok(a) => spec_schema(parsed_json(json_schema@)) matches Ok(types) && schema_automaton_ok(types, &a),
            Err(e) => spec_schema(parsed_json(json_schema@)) == Err::<Seq<TypeSpec>, ErrSpec>(e@),
        },
        r matches Some(Ok(a)) ==> (names_apart(schema_defs(parsed_json(json_schema@)->Some_0)) ==> {
            let defs = schema_defs(parsed_json(json_schema@)->Some_0);
            &&& forall|i: int, k: int| 0 <= i < defs.len() && 0 <= k < def_props(defs[i].1).len() ==> #[trigger] member_law(&a, defs, i, k)
            &&& forall|i: int, k: int| #[trigger] array_prop(defs, i, k) ==> element_law(&a, defs, i, k)
        }),
{
    match schema_types(json_schema) {
        Ok(types) => {
            if types.len() > 253 {
                return None;
            }
        },
        Err(_) => {},
    }
    Some(from_string(json_schema))
}


/// Number of array properties among the first `n` of `props`.
pub open spec fn array_count(props: Seq<(Seq<char>, ChildSpec)>, n: int) -> nat
    decreases n,
{
    if n <= 0 {
        0
    } else {
        array_count(props, n - 1) + if props[n - 1].1 is Array { 1nat } else { 0nat }
    }
}

/// `x` is the position of one of the types for array elements that
/// `unroll_props` makes.
pub open spec fn fake_slot(owner: Seq<char>, props: Seq<(Seq<char>, ChildSpec)>, x: int) -> bool {
    0 <= x < unroll_props(owner, props).0.len()
}

/// `y` is a position of the unrolled types.
pub open spec fn unrolled_slot(types: Seq<TypeSpec>, y: int) -> bool {
    0 <= y < spec_unroll(types).len()
}

/// Where the `i`-th type stands once unrolled: after the types before it
/// and the types for its array properties.
pub open spec fn main_position(types: Seq<TypeSpec>, i: int) -> int {
    (unrolled_before(types, i) + array_count(types[i].props, types[i].props.len() as int)) as int
}

/// Number of types that the first `i` types take up once unrolled: each
/// type and one more per array property.
pub open spec fn unrolled_before(types: Seq<TypeSpec>, i: int) -> nat
    decreases i,
{
    if i <= 0 {
        0
    } else {
        unrolled_before(types, i - 1) + array_count(types[i - 1].props, types[i - 1].props.len() as int) + 1
    }
}

proof fn lemma_array_count_prefix(p1: Seq<(Seq<char>, ChildSpec)>, p2: Seq<(Seq<char>, ChildSpec)>, n: int)
    requires
        n <= p1.len(),
        n <= p2.len(),
        forall|k: int| 0 <= k < n ==> p1[k] == p2[k],
    ensures
        array_count(p1, n) == array_count(p2, n),
    decreases n,
{
    if n > 0 {
        lemma_array_count_prefix(p1, p2, n - 1);
    }
}

/// Array counts grow along the properties, by one at each array.
proof fn lemma_array_count_mono(props: Seq<(Seq<char>, ChildSpec)>, j: int, k: int)
    requires
        0 <= j <= k <= props.len(),
    ensures
        array_count(props, j) <= array_count(props, k),
        j < k && props[j].1 is Array ==> array_count(props, j) < array_count(props, k),
    decreases k - j,
{
    if j < k {
        lemma_array_count_mono(props, j, k - 1);
        if j == k - 1 {
        }
    }
}

proof fn lemma_unrolled_before_prefix(t1: Seq<TypeSpec>, t2: Seq<TypeSpec>, i: int)
    requires
        i <= t1.len(),
        i <= t2.len(),
        forall|k: int| 0 <= k < i ==> t1[k] == t2[k],
    ensures
        unrolled_before(t1, i) == unrolled_before(t2, i),
    decreases i,
{
    if i > 0 {
        lemma_unrolled_before_prefix(t1, t2, i - 1);
    }
}

proof fn lemma_unrolled_before_mono(types: Seq<TypeSpec>, i: int, j: int)
    requires
        0 <= i < j,
    ensures
        unrolled_before(types, i) + array_count(types[i].props, types[i].props.len() as int) + 1 <= unrolled_before(types, j),
    decreases j - i,
{
    if j > i + 1 {
        lemma_unrolled_before_mono(types, i, j - 1);
    }
}

/// Where `unroll_props` puts things: the type for the elements of the
/// `k`-th property, when it is an array, is the `array_count(props, k)`-th
/// fake type, named after the owner and the property; the property then
/// refers to it, and other properties stay as they are.
proof fn lemma_unroll_props_layout(owner: Seq<char>, props: Seq<(Seq<char>, ChildSpec)>)
    ensures
        unroll_props(owner, props).0.len() == array_count(props, props.len() as int),
        unroll_props(owner, props).1.len() == props.len(),
        forall|k: int| 0 <= k < props.len() ==> match (#[trigger] props[k]).1 {
            ChildSpec::Array(its) => unroll_props(owner, props).0[array_count(props, k) as int] == fake_type(owner + props[k].0 + "[]"@, its)
                && unroll_props(owner, props).1[k] == (props[k].0, ChildSpec::Type(owner + props[k].0 + "[]"@)),
            _ => unroll_props(owner, props).1[k] == props[k],
        },
        forall|x: int| #[trigger] fake_slot(owner, props, x) ==> exists|k: int|
            0 <= k < props.len() && props[k].1 is Array && #[trigger] array_count(props, k) == x,
    decreases props.len(),
{
    if props.len() > 0 {
        let dl = props.drop_last();
        lemma_unroll_props_layout(owner, dl);
        let n = dl.len() as int;
        assert forall|k: int| 0 <= k <= n implies array_count(dl, k) == array_count(props, k) by {
            lemma_array_count_prefix(dl, props, k);
        }
        let (fakes, children) = unroll_props(owner, dl);
        let p = props.last();
        assert(p == props[n]);
        assert forall|k: int| 0 <= k < props.len() implies match (#[trigger] props[k]).1 {
            ChildSpec::Array(its) => unroll_props(owner, props).0[array_count(props, k) as int] == fake_type(owner + props[k].0 + "[]"@, its)
                && unroll_props(owner, props).1[k] == (props[k].0, ChildSpec::Type(owner + props[k].0 + "[]"@)),
            _ => unroll_props(owner, props).1[k] == props[k],
        } by {
            if k < n {
                assert(props[k] == dl[k]);
                lemma_array_count_mono(dl, k, n);
            }
        }
        assert forall|x: int| #[trigger] fake_slot(owner, props, x) implies exists|k: int|
            0 <= k < props.len() && props[k].1 is Array && #[trigger] array_count(props, k) == x by {
            if x < fakes.len() {
                assert(fake_slot(owner, dl, x));
                let k = choose|k: int| 0 <= k < dl.len() && dl[k].1 is Array && #[trigger] array_count(dl, k) == x;
                assert(props[k] == dl[k]);
            } else {
                assert(p.1 is Array);
                assert(array_count(props, n) == x);
            }
        }
    }
}

/// Where `spec_unroll` puts things: the `i`-th type's fake types start at
/// `unrolled_before(types, i)`, and the type itself follows them.
proof fn lemma_unroll_layout(types: Seq<TypeSpec>)
    ensures
        spec_unroll(types).len() == unrolled_before(types, types.len() as int),
        forall|i: int, x: int| 0 <= i < types.len() && 0 <= x < array_count(types[i].props, types[i].props.len() as int)
            ==> spec_unroll(types)[#[trigger] (unrolled_before(types, i) + x)] == unroll_props(types[i].name, types[i].props).0[x],
        forall|i: int| 0 <= i < types.len() ==> spec_unroll(types)[main_position(types, i)]
            == (TypeSpec { name: types[i].name, props: unroll_props(types[i].name, types[i].props).1, additional: types[i].additional, fake: false }),
        forall|y: int| #[trigger] unrolled_slot(types, y) ==> exists|i: int| 0 <= i < types.len()
            && unrolled_before(types, i) <= y <= #[trigger] main_position(types, i),
    decreases types.len(),
{
    if types.len() > 0 {
        let dl = types.drop_last();
        let n = dl.len() as int;
        lemma_unroll_layout(dl);
        assert forall|i: int| 0 <= i <= n implies unrolled_before(dl, i) == unrolled_before(types, i) by {
            lemma_unrolled_before_prefix(dl, types, i);
        }
        let t = types.last();
        assert(t == types[n]);
        lemma_unroll_props_layout(t.name, t.props);
        let (fakes, children) = unroll_props(t.name, t.props);
        let a = spec_unroll(dl);
        let b = fakes.push(TypeSpec { name: t.name, props: children, additional: t.additional, fake: false });
        assert(spec_unroll(types) == a + b);
        assert(a.len() == unrolled_before(types, n));
        assert forall|i: int, x: int| 0 <= i < types.len() && 0 <= x < array_count(types[i].props, types[i].props.len() as int)
            implies spec_unroll(types)[#[trigger] (unrolled_before(types, i) + x)] == unroll_props(types[i].name, types[i].props).0[x] by {
            if i < n {
                assert(types[i] == dl[i]);
                lemma_unrolled_before_mono(dl, i, n);
                assert(spec_unroll(dl)[unrolled_before(dl, i) + x] == unroll_props(dl[i].name, dl[i].props).0[x]);
            }
        }
        assert forall|i: int| 0 <= i < types.len() implies spec_unroll(types)[main_position(types, i)]
            == (TypeSpec { name: types[i].name, props: unroll_props(types[i].name, types[i].props).1, additional: types[i].additional, fake: false }) by {
            if i < n {
                assert(types[i] == dl[i]);
                lemma_unrolled_before_mono(dl, i, n);
                assert(main_position(dl, i) == main_position(types, i));
                assert(spec_unroll(dl)[main_position(dl, i)] == (TypeSpec { name: dl[i].name, props: unroll_props(dl[i].name, dl[i].props).1, additional: dl[i].additional, fake: false }));
                assert(spec_unroll(types)[main_position(types, i)] == a[main_position(types, i)]);
            } else {
                assert(main_position(types, i) == a.len() + fakes.len());
                assert(spec_unroll(types)[main_position(types, i)] == b[fakes.len() as int]);
            }
        }
        assert forall|y: int| #[trigger] unrolled_slot(types, y) implies exists|i: int| 0 <= i < types.len()
            && unrolled_before(types, i) <= y <= #[trigger] main_position(types, i) by {
            if y < a.len() {
                assert(unrolled_slot(dl, y));
                let i = choose|i: int| 0 <= i < dl.len()
                    && unrolled_before(dl, i) <= y <= #[trigger] main_position(dl, i);
                assert(types[i] == dl[i]);
                assert(main_position(dl, i) == main_position(types, i));
            } else {
                assert(unrolled_before(types, n) <= y <= main_position(types, n));
            }
        }
    }
}


/// The last type named `n` is the only one.
proof fn lemma_last_type_index_unique(types: Seq<TypeSpec>, n: Seq<char>, x: int)
    requires
        0 <= x < types.len(),
        types[x].name == n,
        forall|y: int| 0 <= y < types.len() && y != x ==> (#[trigger] types[y]).name != n,
    ensures
        last_type_index(types, n) == x,
    decreases types.len(),
{
    if x != types.len() - 1 {
        let dl = types.drop_last();
        assert(types.last().name != n);
        assert forall|y: int| 0 <= y < dl.len() && y != x implies (#[trigger] dl[y]).name != n by {
            assert(dl[y] == types[y]);
        }
        lemma_last_type_index_unique(dl, n, x);
    }
}

/// Without a repeated name from position `j` on, no name at or after `j`
/// repeats an earlier one.
proof fn lemma_no_duplicate(v: Seq<Seq<char>>, j: int)
    requires
        0 <= j,
        duplicate_from(v, j) is None,
    ensures
        forall|a: int, b: int| 0 <= a < b < v.len() && j <= b ==> #[trigger] v[a] != #[trigger] v[b],
    decreases v.len() - j,
{
    if j < v.len() {
        assert(!v.take(j).contains(v[j]));
        lemma_no_duplicate(v, j + 1);
        assert forall|a: int, b: int| 0 <= a < b < v.len() && j <= b implies #[trigger] v[a] != #[trigger] v[b] by {
            if b == j {
                assert(v.take(j)[a] == v[a]);
            }
        }
    }
}

/// The definitions read in order: one type per definition, each read by
/// [`spec_process_type`].
proof fn lemma_defs_types(defs: Seq<(String, JsonValue)>, types: Seq<TypeSpec>)
    requires
        spec_defs_types(defs) == Ok::<Seq<TypeSpec>, ErrSpec>(types),
    ensures
        types.len() == defs.len(),
        forall|i: int| 0 <= i < defs.len() ==> spec_process_type((#[trigger] defs[i]).0@, defs[i].1) == Ok::<TypeSpec, ErrSpec>(types[i]),
    decreases defs.len(),
{
    if defs.len() > 0 {
        let t = spec_process_type(defs[0].0@, defs[0].1)->Ok_0;
        let rest = spec_defs_types(defs.drop_first())->Ok_0;
        lemma_defs_types(defs.drop_first(), rest);
        assert(types == seq![t] + rest);
        assert forall|i: int| 0 <= i < defs.len() implies spec_process_type((#[trigger] defs[i]).0@, defs[i].1) == Ok::<TypeSpec, ErrSpec>(types[i]) by {
            if i > 0 {
                assert(defs[i] == defs.drop_first()[i - 1]);
            }
        }
    }
}

/// The properties read in order: one per member, labelled by its name.
proof fn lemma_unpack_props(props: Seq<(String, JsonValue)>, cs: Seq<(Seq<char>, ChildSpec)>)
    requires
        spec_unpack_properties(props) == Ok::<Seq<(Seq<char>, ChildSpec)>, ErrSpec>(cs),
    ensures
        cs.len() == props.len(),
        forall|k: int| 0 <= k < props.len() ==> (#[trigger] cs[k]).0 == props[k].0@ && spec_child(props[k].1) == Ok::<ChildSpec, ErrSpec>(cs[k].1),
    decreases props.len(),
{
    if props.len() > 0 {
        let c = spec_child(props[0].1)->Ok_0;
        let rest = spec_unpack_properties(props.drop_first())->Ok_0;
        lemma_unpack_props(props.drop_first(), rest);
        assert(cs == seq![(props[0].0@, c)] + rest);
        assert forall|k: int| 0 <= k < props.len() implies (#[trigger] cs[k]).0 == props[k].0@ && spec_child(props[k].1) == Ok::<ChildSpec, ErrSpec>(cs[k].1) by {
            if k > 0 {
                assert(props[k] == props.drop_first()[k - 1]);
                assert(cs[k] == rest[k - 1]);
            }
        }
    }
}

/// The alternatives of `anyOf` read in order: a reference names its type,
/// any other alternative is a primitive.
proof fn lemma_any_of(alts: Seq<JsonValue>, its: Seq<ItemSpec>)
    requires
        spec_any_of_items(alts) == Ok::<Seq<ItemSpec>, ErrSpec>(its),
    ensures
        its.len() == alts.len(),
        forall|j: int| 0 <= j < alts.len() ==> match json_get(#[trigger] alts[j], "$ref"@) {
            Some(JsonValue::String(r)) => its[j] == ItemSpec::Type(ref_type_name(r@)),
            None => its[j] == ItemSpec::Primitive,
            _ => false,
        },
    decreases alts.len(),
{
    if alts.len() > 0 {
        let t = spec_any_of_item(alts[0])->Ok_0;
        let rest = spec_any_of_items(alts.drop_first())->Ok_0;
        lemma_any_of(alts.drop_first(), rest);
        assert(its == seq![t] + rest);
        assert forall|j: int| 0 <= j < alts.len() implies match json_get(#[trigger] alts[j], "$ref"@) {
            Some(JsonValue::String(r)) => its[j] == ItemSpec::Type(ref_type_name(r@)),
            None => its[j] == ItemSpec::Primitive,
            _ => false,
        } by {
            if j > 0 {
                assert(alts[j] == alts.drop_first()[j - 1]);
                assert(its[j] == rest[j - 1]);
            }
        }
    }
}

/// What an array's `items` makes of its elements: a reference names the
/// one type of its elements; with a `type` (and no reference) they are one
/// kind of primitive; otherwise each alternative of `anyOf` is a kind.
proof fn lemma_unpack_array(items: JsonValue, its: Seq<ItemSpec>)
    requires
        spec_unpack_array(items) == Ok::<Seq<ItemSpec>, ErrSpec>(its),
    ensures
        json_get(items, "$ref"@) matches Some(JsonValue::String(r)) ==> its == seq![ItemSpec::Type(ref_type_name(r@))],
        json_get(items, "$ref"@) is None && json_get(items, "type"@) is Some ==> its == seq![ItemSpec::Primitive],
        json_get(items, "$ref"@) is None && json_get(items, "type"@) is None ==> (json_get(items, "anyOf"@) matches Some(JsonValue::Array(alts))
            && its.len() == alts@.len()
            && forall|j: int| 0 <= j < alts@.len() ==> match json_get(#[trigger] alts@[j], "$ref"@) {
                Some(JsonValue::String(r)) => its[j] == ItemSpec::Type(ref_type_name(r@)),
                None => its[j] == ItemSpec::Primitive,
                _ => false,
            }),
        json_get(items, "$ref"@) is None || json_get(items, "$ref"@) matches Some(JsonValue::String(_)),
{
    if json_get(items, "$ref"@) is None && json_get(items, "type"@) is None {
        match json_get(items, "anyOf"@) {
            Some(JsonValue::Array(alts)) => {
                lemma_any_of(alts@, its);
            },
            _ => {},
        }
    }
}


/// What a property definition makes: a reference by a `$ref` text names a
/// type; with `items` (and no such reference) it is an array whose
/// elements `items` describes; anything else is a primitive.
proof fn lemma_child(p: JsonValue, c: ChildSpec)
    requires
        spec_child(p) == Ok::<ChildSpec, ErrSpec>(c),
    ensures
        json_get(p, "$ref"@) matches Some(JsonValue::String(r)) ==> c == ChildSpec::Type(ref_type_name(r@)),
        is_array_def(p) ==> (c matches ChildSpec::Array(its) && spec_unpack_array(json_get(p, "items"@)->Some_0) == Ok::<Seq<ItemSpec>, ErrSpec>(its)),
        !is_array_def(p) && !(json_get(p, "$ref"@) matches Some(JsonValue::String(_))) ==> c == ChildSpec::Primitive,
        (c is Array) == is_array_def(p),
{
}

/// The definitions of a schema: the members of its `$defs` object, in order.
pub open spec fn schema_defs(schema: JsonValue) -> Seq<(String, JsonValue)> {
    match json_get(schema, "$defs"@) {
        Some(JsonValue::Object(m)) => m@,
        _ => Seq::empty(),
    }
}

/// The properties of a type definition: the members of its `properties`
/// object, in order.
pub open spec fn def_props(def: JsonValue) -> Seq<(String, JsonValue)> {
    match json_get(def, "properties"@) {
        Some(JsonValue::Object(m)) => m@,
        _ => Seq::empty(),
    }
}

/// A property definition is an array: it has `items` and no `$ref` text.
pub open spec fn is_array_def(p: JsonValue) -> bool {
    !(json_get(p, "$ref"@) matches Some(JsonValue::String(_))) && json_get(p, "items"@) is Some
}

/// Number of array properties among the first `n` members of `props`.
pub open spec fn arrays_in(props: Seq<(String, JsonValue)>, n: int) -> nat
    decreases n,
{
    if n <= 0 {
        0
    } else {
        arrays_in(props, n - 1) + if is_array_def(props[n - 1].1) { 1nat } else { 0nat }
    }
}

/// Number of states that the first `i` definitions take: one for each
/// definition and one for the elements of each of its array properties.
pub open spec fn states_before(defs: Seq<(String, JsonValue)>, i: int) -> nat
    decreases i,
{
    if i <= 0 {
        0
    } else {
        states_before(defs, i - 1) + arrays_in(def_props(defs[i - 1].1), def_props(defs[i - 1].1).len() as int) + 1
    }
}

/// The state of the `i`-th definition: after the states of the
/// definitions before it and those of the elements of its own arrays.
pub open spec fn def_state(defs: Seq<(String, JsonValue)>, i: int) -> int {
    2 + states_before(defs, i) as int + arrays_in(def_props(defs[i].1), def_props(defs[i].1).len() as int) as int
}

/// The state of the elements of the `k`-th property, an array, of the
/// `i`-th definition.
pub open spec fn element_state(defs: Seq<(String, JsonValue)>, i: int, k: int) -> int {
    2 + states_before(defs, i) as int + arrays_in(def_props(defs[i].1), k) as int
}

/// The name given to the type of the elements of the `k`-th property of
/// the `i`-th definition: the definition's name, the property's, and `[]`.
pub open spec fn element_type_name(defs: Seq<(String, JsonValue)>, i: int, k: int) -> Seq<char> {
    defs[i].0@ + def_props(defs[i].1)[k].0@ + "[]"@
}

/// `(i, k)` is an array property of the `i`-th definition.
pub open spec fn array_prop(defs: Seq<(String, JsonValue)>, i: int, k: int) -> bool {
    0 <= i < defs.len() && 0 <= k < def_props(defs[i].1).len() && is_array_def(def_props(defs[i].1)[k].1)
}

/// The names of the types for array elements are told apart from each
/// other and from the names of the definitions.
pub open spec fn names_apart(defs: Seq<(String, JsonValue)>) -> bool {
    &&& forall|i: int, k: int, m: int| #[trigger] array_prop(defs, i, k) && 0 <= m < defs.len()
        ==> (#[trigger] defs[m]).0@ != element_type_name(defs, i, k)
    &&& forall|i: int, k: int, i2: int, k2: int| #[trigger] array_prop(defs, i, k) && #[trigger] array_prop(defs, i2, k2) && (i != i2 || k != k2)
        ==> element_type_name(defs, i, k) != element_type_name(defs, i2, k2)
}

/// `target` is the state of every definition named `name`.
pub open spec fn leads_to_def(defs: Seq<(String, JsonValue)>, name: Seq<char>, target: int) -> bool {
    forall|m: int| 0 <= m < defs.len() && (#[trigger] defs[m]).0@ == name ==> target == def_state(defs, m)
}

/// The `k`-th member transition of the state of the `i`-th definition is
/// the `k`-th property: an array leads to the state of its elements, a
/// reference to the state of the definition it names, anything else to
/// the accepting leaf 0.
pub open spec fn member_law(a: &Automaton, defs: Seq<(String, JsonValue)>, i: int, k: int) -> bool {
    let props = def_props(defs[i].1);
    let st = a.states@[def_state(defs, i)];
    let p = props[k];
    &&& 2 <= def_state(defs, i) < a.states@.len()
    &&& st.member_transitions@.len() == props.len()
    &&& st.member_transitions@[k].0@ == p.0@
    &&& is_array_def(p.1) ==> st.member_transitions@[k].1 == element_state(defs, i, k)
    &&& json_get(p.1, "$ref"@) matches Some(JsonValue::String(r)) ==> leads_to_def(defs, ref_type_name(r@), st.member_transitions@[k].1 as int)
    &&& !is_array_def(p.1) && !(json_get(p.1, "$ref"@) matches Some(JsonValue::String(_))) ==> st.member_transitions@[k].1 == 0
}

/// The state of the elements of the `k`-th property (an array) of the
/// `i`-th definition reads array elements only, by `[*]` transitions: one
/// to the definition that `items` refers to, or one to the accepting leaf
/// 0 when `items` has a `type`, or else one per alternative of `anyOf`, in
/// order, to the definition it refers to or to the leaf.
pub open spec fn element_law(a: &Automaton, defs: Seq<(String, JsonValue)>, i: int, k: int) -> bool {
    let p = def_props(defs[i].1)[k];
    let items = json_get(p.1, "items"@)->Some_0;
    let e = a.states@[element_state(defs, i, k)];
    let ts = e.array_transitions@;
    &&& 2 <= element_state(defs, i, k) < a.states@.len()
    &&& e.accepting
    &&& e.member_transitions@.len() == 0
    &&& forall|j: int| 0 <= j < ts.len() ==> (#[trigger] ts[j]).label == (ArrayLabel::Slice { start: 0, end: None, step: 1 })
    &&& json_get(items, "$ref"@) matches Some(JsonValue::String(r)) ==> ts.len() == 1 && leads_to_def(defs, ref_type_name(r@), ts[0].target as int)
    &&& json_get(items, "$ref"@) is None && json_get(items, "type"@) is Some ==> ts.len() == 1 && ts[0].target == 0
    &&& json_get(items, "$ref"@) is None && json_get(items, "type"@) is None ==> (json_get(items, "anyOf"@) matches Some(JsonValue::Array(alts))
        && ts.len() == alts@.len()
        && forall|j: int| 0 <= j < alts@.len() ==> match json_get(#[trigger] alts@[j], "$ref"@) {
            Some(JsonValue::String(r)) => leads_to_def(defs, ref_type_name(r@), ts[j].target as int),
            None => ts[j].target == 0,
            _ => false,
        })
}


/// The `i`-th type read from the definitions: its name, not a type for
/// array elements, and the properties of the `i`-th definition.
proof fn lemma_def_type(defs: Seq<(String, JsonValue)>, dtypes: Seq<TypeSpec>, i: int)
    requires
        spec_defs_types(defs) == Ok::<Seq<TypeSpec>, ErrSpec>(dtypes),
        0 <= i < defs.len(),
    ensures
        dtypes.len() == defs.len(),
        dtypes[i].name == defs[i].0@,
        !dtypes[i].fake,
        spec_unpack_properties(def_props(defs[i].1)) == Ok::<Seq<(Seq<char>, ChildSpec)>, ErrSpec>(dtypes[i].props),
        dtypes[i].props.len() == def_props(defs[i].1).len(),
{
    lemma_defs_types(defs, dtypes);
    assert(spec_process_type(defs[i].0@, defs[i].1) == Ok::<TypeSpec, ErrSpec>(dtypes[i]));
    lemma_unpack_props(def_props(defs[i].1), dtypes[i].props);
}

/// The JSON count of array properties is the count of array children.
proof fn lemma_counts(props: Seq<(String, JsonValue)>, cs: Seq<(Seq<char>, ChildSpec)>, n: int)
    requires
        spec_unpack_properties(props) == Ok::<Seq<(Seq<char>, ChildSpec)>, ErrSpec>(cs),
        0 <= n <= props.len(),
    ensures
        arrays_in(props, n) == array_count(cs, n),
    decreases n,
{
    if n > 0 {
        lemma_counts(props, cs, n - 1);
        lemma_unpack_props(props, cs);
        assert(spec_child(props[n - 1].1) == Ok::<ChildSpec, ErrSpec>(cs[n - 1].1));
        lemma_child(props[n - 1].1, cs[n - 1].1);
    }
}

proof fn lemma_before(defs: Seq<(String, JsonValue)>, dtypes: Seq<TypeSpec>, i: int)
    requires
        spec_defs_types(defs) == Ok::<Seq<TypeSpec>, ErrSpec>(dtypes),
        0 <= i <= defs.len(),
    ensures
        states_before(defs, i) == unrolled_before(dtypes, i),
    decreases i,
{
    if i > 0 {
        lemma_before(defs, dtypes, i - 1);
        lemma_def_type(defs, dtypes, i - 1);
        lemma_counts(def_props(defs[i - 1].1), dtypes[i - 1].props, def_props(defs[i - 1].1).len() as int);
    }
}

/// What stands at position `y` of the unrolled types: the type of some
/// definition `i`, or the type for the elements of an array property `k`
/// of it, with the names they are given.
proof fn lemma_slot_name(defs: Seq<(String, JsonValue)>, dtypes: Seq<TypeSpec>, y: int) -> (r: (int, int))
    requires
        spec_defs_types(defs) == Ok::<Seq<TypeSpec>, ErrSpec>(dtypes),
        0 <= y < spec_unroll(dtypes).len(),
    ensures
        0 <= r.0 < defs.len(),
        unrolled_before(dtypes, r.0) <= y <= main_position(dtypes, r.0),
        y == main_position(dtypes, r.0) ==> spec_unroll(dtypes)[y].name == defs[r.0].0@,
        y < main_position(dtypes, r.0) ==> array_prop(defs, r.0, r.1)
            && y == unrolled_before(dtypes, r.0) + array_count(dtypes[r.0].props, r.1)
            && spec_unroll(dtypes)[y].name == element_type_name(defs, r.0, r.1),
{
    lemma_defs_types(defs, dtypes);
    lemma_unroll_layout(dtypes);
    assert(unrolled_slot(dtypes, y));
    let i = choose|i: int| 0 <= i < dtypes.len() && unrolled_before(dtypes, i) <= y <= #[trigger] main_position(dtypes, i);
    lemma_def_type(defs, dtypes, i);
    let t = dtypes[i];
    if y == main_position(dtypes, i) {
        (i, 0)
    } else {
        let x = y - unrolled_before(dtypes, i);
        lemma_unroll_props_layout(t.name, t.props);
        assert(fake_slot(t.name, t.props, x));
        let k = choose|k: int| 0 <= k < t.props.len() && t.props[k].1 is Array && #[trigger] array_count(t.props, k) == x;
        lemma_unpack_props(def_props(defs[i].1), t.props);
        assert(spec_child(def_props(defs[i].1)[k].1) == Ok::<ChildSpec, ErrSpec>(t.props[k].1));
        lemma_child(def_props(defs[i].1)[k].1, t.props[k].1);
        assert(spec_unroll(dtypes)[unrolled_before(dtypes, i) + x] == unroll_props(t.name, t.props).0[x]);
        (i, k)
    }
}

/// The last (and only) type named after definition `m` is its own.
proof fn lemma_def_name_unique(defs: Seq<(String, JsonValue)>, dtypes: Seq<TypeSpec>, m: int)
    requires
        spec_defs_types(defs) == Ok::<Seq<TypeSpec>, ErrSpec>(dtypes),
        duplicate_from(dtypes.map_values(|t: TypeSpec| t.name), 0) is None,
        names_apart(defs),
        0 <= m < defs.len(),
    ensures
        last_type_index(spec_unroll(dtypes), defs[m].0@) == main_position(dtypes, m),
{
    let types = spec_unroll(dtypes);
    let n = defs[m].0@;
    let x = main_position(dtypes, m);
    lemma_defs_types(defs, dtypes);
    lemma_def_type(defs, dtypes, m);
    lemma_unroll_layout(dtypes);
    if m + 1 < dtypes.len() {
        lemma_unrolled_before_mono(dtypes, m, dtypes.len() as int);
    }
    assert(x < types.len());
    assert(types[x].name == n);
    let names = dtypes.map_values(|t: TypeSpec| t.name);
    lemma_no_duplicate(names, 0);
    assert forall|y: int| 0 <= y < types.len() && y != x implies (#[trigger] types[y]).name != n by {
        let (i, k) = lemma_slot_name(defs, dtypes, y);
        if y == main_position(dtypes, i) {
            assert(i != m);
            lemma_def_type(defs, dtypes, i);
            if i < m {
                assert(names[i] != names[m]);
            } else {
                assert(names[m] != names[i]);
            }
        } else {
            assert(array_prop(defs, i, k));
            assert(defs[m].0@ != element_type_name(defs, i, k));
        }
    }
    lemma_last_type_index_unique(types, n, x);
}

/// The last (and only) type named after the elements of array property
/// `k` of definition `i` is the one made for them.
proof fn lemma_element_name_unique(defs: Seq<(String, JsonValue)>, dtypes: Seq<TypeSpec>, i: int, k: int)
    requires
        spec_defs_types(defs) == Ok::<Seq<TypeSpec>, ErrSpec>(dtypes),
        names_apart(defs),
        array_prop(defs, i, k),
    ensures
        last_type_index(spec_unroll(dtypes), element_type_name(defs, i, k)) == unrolled_before(dtypes, i) + array_count(dtypes[i].props, k),
        spec_unroll(dtypes)[(unrolled_before(dtypes, i) + array_count(dtypes[i].props, k)) as int] == fake_type(
            element_type_name(defs, i, k), spec_unpack_array(json_get(def_props(defs[i].1)[k].1, "items"@)->Some_0)->Ok_0),
{
    let types = spec_unroll(dtypes);
    let n = element_type_name(defs, i, k);
    lemma_defs_types(defs, dtypes);
    lemma_def_type(defs, dtypes, i);
    let t = dtypes[i];
    lemma_unpack_props(def_props(defs[i].1), t.props);
    let p = def_props(defs[i].1)[k];
    assert(spec_child(p.1) == Ok::<ChildSpec, ErrSpec>(t.props[k].1));
    lemma_child(p.1, t.props[k].1);
    let x: int = (unrolled_before(dtypes, i) + array_count(t.props, k)) as int;
    lemma_array_count_mono(t.props, k, t.props.len() as int);
    lemma_unroll_layout(dtypes);
    lemma_unroll_props_layout(t.name, t.props);
    assert(types[x] == unroll_props(t.name, t.props).0[array_count(t.props, k) as int]);
    if i + 1 < dtypes.len() {
        lemma_unrolled_before_mono(dtypes, i, dtypes.len() as int);
    }
    assert(x < types.len());
    assert(types[x].name == n);
    assert forall|y: int| 0 <= y < types.len() && y != x implies (#[trigger] types[y]).name != n by {
        let (i2, k2) = lemma_slot_name(defs, dtypes, y);
        if y == main_position(dtypes, i2) {
            assert(defs[i2].0@ != element_type_name(defs, i, k));
        } else {
            if i2 == i && k2 == k {
                assert(y == x);
            }
            assert(array_prop(defs, i2, k2));
            assert(element_type_name(defs, i, k) != element_type_name(defs, i2, k2));
        }
    }
    lemma_last_type_index_unique(types, n, x);
}


/// Where a reference to `name` leads in the automaton: to the state of
/// each definition of that name.
proof fn lemma_ref_target(defs: Seq<(String, JsonValue)>, dtypes: Seq<TypeSpec>, name: Seq<char>)
    requires
        spec_defs_types(defs) == Ok::<Seq<TypeSpec>, ErrSpec>(dtypes),
        duplicate_from(dtypes.map_values(|t: TypeSpec| t.name), 0) is None,
        names_apart(defs),
    ensures
        leads_to_def(defs, name, child_target(spec_unroll(dtypes), ChildSpec::Type(name))),
{
    assert forall|m: int| 0 <= m < defs.len() && (#[trigger] defs[m]).0@ == name implies
        child_target(spec_unroll(dtypes), ChildSpec::Type(name)) == def_state(defs, m) by {
        lemma_def_name_unique(defs, dtypes, m);
        lemma_before(defs, dtypes, m);
        lemma_def_type(defs, dtypes, m);
        lemma_counts(def_props(defs[m].1), dtypes[m].props, def_props(defs[m].1).len() as int);
    }
}

/// The law for the `k`-th property of the `i`-th definition.
proof fn lemma_property_law(defs: Seq<(String, JsonValue)>, dtypes: Seq<TypeSpec>, a: &Automaton, i: int, k: int)
    requires
        spec_defs_types(defs) == Ok::<Seq<TypeSpec>, ErrSpec>(dtypes),
        duplicate_from(dtypes.map_values(|t: TypeSpec| t.name), 0) is None,
        names_apart(defs),
        schema_automaton_ok(spec_unroll(dtypes), a),
        0 <= i < defs.len(),
        0 <= k < def_props(defs[i].1).len(),
    ensures
        member_law(a, defs, i, k),
        is_array_def(def_props(defs[i].1)[k].1) ==> element_law(a, defs, i, k),
{
    let types = spec_unroll(dtypes);
    let props = def_props(defs[i].1);
    let p = props[k];
    lemma_def_type(defs, dtypes, i);
    let t = dtypes[i];
    lemma_unpack_props(props, t.props);
    let c = t.props[k].1;
    assert(spec_child(p.1) == Ok::<ChildSpec, ErrSpec>(c));
    lemma_child(p.1, c);
    lemma_before(defs, dtypes, i);
    lemma_counts(props, t.props, props.len() as int);
    lemma_counts(props, t.props, k);
    lemma_unroll_layout(dtypes);
    lemma_unroll_props_layout(t.name, t.props);
    if i + 1 < dtypes.len() {
        lemma_unrolled_before_mono(dtypes, i, dtypes.len() as int);
    }
    let main = main_position(dtypes, i);
    assert(def_state(defs, i) == 2 + main);
    assert(main < types.len());
    let children = unroll_props(t.name, t.props).1;
    assert(types[main] == (TypeSpec { name: t.name, props: children, additional: t.additional, fake: false }));
    let st = a.states@[2 + main];
    assert(schema_state_ok(types, types[main], st));
    assert(st.member_transitions@[k].1 == child_target(types, children[k].1));
    if is_array_def(p.1) {
        assert(children[k].1 == ChildSpec::Type(element_type_name(defs, i, k)));
        assert(array_prop(defs, i, k));
        lemma_element_name_unique(defs, dtypes, i, k);
        let x: int = (unrolled_before(dtypes, i) + array_count(t.props, k)) as int;
        assert(element_state(defs, i, k) == 2 + x);
        let items = json_get(p.1, "items"@)->Some_0;
        let its = spec_unpack_array(items)->Ok_0;
        lemma_unpack_array(items, its);
        lemma_array_count_mono(t.props, k, t.props.len() as int);
        let e = a.states@[2 + x];
        assert(schema_state_ok(types, types[x], e));
        let f = fake_type(element_type_name(defs, i, k), its);
        assert(types[x] == f);
        assert(e.array_transitions@.len() == its.len());
        assert forall|j: int| 0 <= j < its.len() implies e.array_transitions@[j].target == child_target(types, item_child(its[j])) by {
            assert(f.props[j] == (Seq::<char>::empty(), item_child(its[j])));
        }
        assert forall|j: int| #![trigger its[j]] 0 <= j < its.len() implies (match its[j] {
            ItemSpec::Type(n) => leads_to_def(defs, n, e.array_transitions@[j].target as int),
            ItemSpec::Primitive => e.array_transitions@[j].target == 0,
        }) by {
            match its[j] {
                ItemSpec::Type(n) => {
                    lemma_ref_target(defs, dtypes, n);
                },
                ItemSpec::Primitive => {},
            }
        }
        let ts = e.array_transitions@;
        if json_get(items, "$ref"@) is None && json_get(items, "type"@) is None {
            match json_get(items, "anyOf"@) {
                Some(JsonValue::Array(alts)) => {
                    assert forall|j: int| 0 <= j < alts@.len() implies match json_get(#[trigger] alts@[j], "$ref"@) {
                        Some(JsonValue::String(r)) => leads_to_def(defs, ref_type_name(r@), ts[j].target as int),
                        None => ts[j].target == 0,
                        _ => false,
                    } by {
                        match its[j] {
                            ItemSpec::Type(n) => {},
                            ItemSpec::Primitive => {},
                        }
                    }
                },
                _ => {},
            }
        }
        assert(element_law(a, defs, i, k));
    } else {
        assert(children[k] == t.props[k]);
        match json_get(p.1, "$ref"@) {
            Some(JsonValue::String(r)) => {
                lemma_ref_target(defs, dtypes, ref_type_name(r@));
            },
            _ => {},
        }
    }
}

/// The automaton of a schema, read against the schema itself: the state of
/// the `i`-th definition has one member transition per property, in order,
/// named after it; an array property leads to the state of its elements,
/// which reads array elements only, by one `[*]` transition for each kind
/// of element that `items` allows, in order (the definition a `$ref`
/// names, or the accepting leaf 0 for anything with a `type`); a reference
/// leads to the state of the definition it names; anything else to the
/// leaf. It holds where no two types get the same name.
pub proof fn lemma_schema_automaton_follows_schema(text: Seq<char>, a: &Automaton)
    requires
        spec_schema(parsed_json(text)) matches Ok(types) && schema_automaton_ok(types, a),
        names_apart(schema_defs(parsed_json(text)->Some_0)),
    ensures
        forall|i: int, k: int| 0 <= i < schema_defs(parsed_json(text)->Some_0).len()
            && 0 <= k < def_props(schema_defs(parsed_json(text)->Some_0)[i].1).len()
            ==> #[trigger] member_law(a, schema_defs(parsed_json(text)->Some_0), i, k),
        forall|i: int, k: int| #[trigger] array_prop(schema_defs(parsed_json(text)->Some_0), i, k)
            ==> element_law(a, schema_defs(parsed_json(text)->Some_0), i, k),
{
    let schema = parsed_json(text)->Some_0;
    let defs = schema_defs(schema);
    assert(spec_required_object(schema, "$defs"@) == Ok::<Seq<(String, JsonValue)>, ErrSpec>(defs));
    let dtypes = spec_defs_types(defs)->Ok_0;
    assert(duplicate_from(dtypes.map_values(|t: TypeSpec| t.name), 0) is None);
    assert(spec_schema_types(parsed_json(text)) == Ok::<Seq<TypeSpec>, ErrSpec>(spec_unroll(dtypes)));
    assert forall|i: int, k: int| 0 <= i < defs.len() && 0 <= k < def_props(defs[i].1).len()
        implies #[trigger] member_law(a, defs, i, k) by {
        lemma_property_law(defs, dtypes, a, i, k);
    }
    assert forall|i: int, k: int| #[trigger] array_prop(defs, i, k) implies element_law(a, defs, i, k) by {
        lemma_property_law(defs, dtypes, a, i, k);
    }
}


} // verus!
