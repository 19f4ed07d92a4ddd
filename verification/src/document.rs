//! The document model: documents, values, text and bytes.
//!
//! Every type here owns its data. Contracts speak of a value through its
//! view: [`ValueModel`] for a [`Value`], [`DocumentModel`] for a
//! [`Document`], and the byte sequence for [`Text`] and [`Bytes`].

use vstd::prelude::*;
use vstd::std_specs::convert::FromSpecImpl;
use vstd::utf8::valid_utf8;

verus! {

broadcast use vstd::utf8::encode_utf8_valid_utf8;

/// `core::str::from_utf8`: the bytes as a string slice when they are
/// well-formed UTF-8, nothing otherwise. The slice borrows the same bytes.
#[verifier::external_body]
pub(crate) fn str_from_utf8(bytes: &[u8]) -> (r: Option<&str>)
    ensures
        r is Some <==> valid_utf8(bytes@),
        r matches Some(s) ==> vstd::utf8::encode_utf8(s@) == bytes@,
{
    core::str::from_utf8(bytes).ok()
}

/// A UTF-8 encoded string, held as its bytes.
#[derive(Debug, PartialEq, Eq)]
pub struct Text(Vec<u8>);

impl View for Text {
    type V = Seq<u8>;

    closed spec fn view(&self) -> Seq<u8> {
        self.0@
    }
}

impl Text {
    #[verifier::type_invariant]
    spec fn well_formed(&self) -> bool {
        valid_utf8(self.0@)
    }

    /// The text of a string slice.
    pub fn from_str(value: &str) -> (r: Text)
        ensures
            r@ == vstd::utf8::encode_utf8(value@),
    {
        Text(vstd::slice::slice_to_vec(value.as_bytes()))
    }

    /// The text of an owned string.
    pub fn from_string(value: String) -> (r: Text)
        ensures
            r@ == vstd::utf8::encode_utf8(value@),
    {
        Text::from_str(value.as_str())
    }

    /// The text held in `bytes`, or nothing when they are not UTF-8.
    pub fn from_utf8(bytes: Vec<u8>) -> (r: Option<Text>)
        ensures
            r is Some <==> valid_utf8(bytes@),
            r matches Some(t) ==> t@ == bytes@,
    {
        if str_from_utf8(bytes.as_slice()).is_some() {
            Some(Text(bytes))
        } else {
            None
        }
    }

    /// The encoded bytes.
    pub fn as_bytes(&self) -> (r: &[u8])
        ensures
            r@ == self@,
            valid_utf8(r@),
    {
        proof {
            use_type_invariant(self);
        }
        self.0.as_slice()
    }

    /// The text as a string slice, without copying.
    pub fn as_str(&self) -> (r: &str)
        ensures
            vstd::utf8::encode_utf8(r@) == self@,
    {
        proof {
            use_type_invariant(self);
        }
        match str_from_utf8(self.0.as_slice()) {
            Some(s) => s,
            None => vstd::pervasive::unreached(),
        }
    }

    /// The number of bytes.
    pub fn len(&self) -> (r: usize)
        ensures
            r == self@.len(),
    {
        self.0.len()
    }

    /// The text as an owned string.
    pub fn to_string(&self) -> (r: String)
        ensures
            r@ == self.as_str_spec(),
    {
        let s = self.as_str();
        proof {
            vstd::utf8::encode_utf8_decode_utf8(s@);
        }
        s.to_owned()
    }

    /// The characters that the bytes encode.
    pub open spec fn as_str_spec(&self) -> Seq<char> {
        vstd::utf8::decode_utf8(self@)
    }
}

impl Clone for Text {
    fn clone(&self) -> (r: Text)
        ensures
            r@ == self@,
    {
        proof {
            use_type_invariant(self);
        }
        Text(vstd::slice::slice_to_vec(self.0.as_slice()))
    }
}

impl From<&str> for Text {
    fn from(value: &str) -> (r: Text)
        ensures
            r@ == vstd::utf8::encode_utf8(value@),
    {
        Text::from_str(value)
    }
}

impl FromSpecImpl<&str> for Text {
    open spec fn obeys_from_spec() -> bool {
        false
    }

    open spec fn from_spec(value: &str) -> Text {
        arbitrary()
    }
}

impl From<String> for Text {
    fn from(value: String) -> (r: Text)
        ensures
            r@ == vstd::utf8::encode_utf8(value@),
    {
        Text::from_string(value)
    }
}

impl FromSpecImpl<String> for Text {
    open spec fn obeys_from_spec() -> bool {
        false
    }

    open spec fn from_spec(value: String) -> Text {
        arbitrary()
    }
}

/// An arbitrary byte string.
#[derive(Debug, PartialEq, Eq)]
pub struct Bytes(Vec<u8>);

impl View for Bytes {
    type V = Seq<u8>;

    closed spec fn view(&self) -> Seq<u8> {
        self.0@
    }
}

impl Bytes {
    /// Wraps a vector of bytes.
    pub fn new(value: Vec<u8>) -> (r: Bytes)
        ensures
            r@ == value@,
    {
        Bytes(value)
    }

    /// The bytes.
    pub fn as_slice(&self) -> (r: &[u8])
        ensures
            r@ == self@,
    {
        self.0.as_slice()
    }

    /// The number of bytes.
    pub fn len(&self) -> (r: usize)
        ensures
            r == self@.len(),
    {
        self.0.len()
    }
}

impl Clone for Bytes {
    fn clone(&self) -> (r: Bytes)
        ensures
            r@ == self@,
    {
        Bytes(vstd::slice::slice_to_vec(self.0.as_slice()))
    }
}

impl From<Vec<u8>> for Bytes {
    fn from(value: Vec<u8>) -> (r: Bytes)
        ensures
            r@ == value@,
    {
        Bytes(value)
    }
}

impl FromSpecImpl<Vec<u8>> for Bytes {
    open spec fn obeys_from_spec() -> bool {
        true
    }

    closed spec fn from_spec(value: Vec<u8>) -> Bytes {
        Bytes(value)
    }
}

/// A document field value.
///
/// Arrays whose items all have one scalar kind have a variant of their own,
/// laid out as a flat run. `ArrayDynamic` and `Object` hold arbitrary
/// values and nest to any depth.
#[derive(Debug, PartialEq)]
pub enum Value {
    /// A null value.
    Null,
    /// A boolean value.
    Bool(bool),
    /// A UTF-8 string value.
    String(Text),
    /// A bytes value.
    Bytes(Bytes),
    /// An unsigned 64-bit integer.
    U64(u64),
    /// A signed 64-bit integer.
    I64(i64),
    /// A 64-bit IEEE 754 number, held as its bit pattern.
    F64(u64),
    /// A date, as microseconds since the Unix epoch.
    Date(i64),
    /// An array of boolean values.
    ArrayBool(Vec<bool>),
    /// An array of UTF-8 string values.
    ArrayString(Vec<Text>),
    /// An array of bytes values.
    ArrayBytes(Vec<Bytes>),
    /// An array of unsigned 64-bit integers.
    ArrayU64(Vec<u64>),
    /// An array of signed 64-bit integers.
    ArrayI64(Vec<i64>),
    /// An array of 64-bit IEEE 754 numbers, each held as its bit pattern.
    ArrayF64(Vec<u64>),
    /// An array of dates, each as microseconds since the Unix epoch.
    ArrayDate(Vec<i64>),
    /// An array of values of any kind.
    ArrayDynamic(Vec<Value>),
    /// An ordered list of keys and values of any kind.
    Object(Vec<(Text, Value)>),
}

/// What a [`Value`] holds, as plain mathematics.
pub enum ValueModel {
    Null,
    Bool(bool),
    String(Seq<u8>),
    Bytes(Seq<u8>),
    U64(u64),
    I64(i64),
    F64(u64),
    Date(i64),
    ArrayBool(Seq<bool>),
    ArrayString(Seq<Seq<u8>>),
    ArrayBytes(Seq<Seq<u8>>),
    ArrayU64(Seq<u64>),
    ArrayI64(Seq<i64>),
    ArrayF64(Seq<u64>),
    ArrayDate(Seq<i64>),
    ArrayDynamic(Seq<ValueModel>),
    Object(Seq<(Seq<u8>, ValueModel)>),
}

/// The views of a run of texts.
pub open spec fn texts_view(texts: Seq<Text>) -> Seq<Seq<u8>> {
    Seq::new(texts.len(), |i: int| texts[i]@)
}

/// The views of a run of byte strings.
pub open spec fn blobs_view(blobs: Seq<Bytes>) -> Seq<Seq<u8>> {
    Seq::new(blobs.len(), |i: int| blobs[i]@)
}

/// The views of a run of values.
pub open spec fn values_view(values: Seq<Value>) -> Seq<ValueModel> {
    Seq::new(values.len(), |i: int| values[i]@)
}

/// The views of a run of keys and values.
pub open spec fn pairs_view(pairs: Seq<(Text, Value)>) -> Seq<(Seq<u8>, ValueModel)> {
    Seq::new(pairs.len(), |i: int| (pairs[i].0@, pairs[i].1@))
}

/// The model of a value, by recursion over its structure.
pub open spec fn model_of(value: Value) -> ValueModel
    decreases value,
{
    match value {
        Value::Null => ValueModel::Null,
        Value::Bool(b) => ValueModel::Bool(b),
        Value::String(t) => ValueModel::String(t@),
        Value::Bytes(b) => ValueModel::Bytes(b@),
        Value::U64(x) => ValueModel::U64(x),
        Value::I64(x) => ValueModel::I64(x),
        Value::F64(x) => ValueModel::F64(x),
        Value::Date(x) => ValueModel::Date(x),
        Value::ArrayBool(v) => ValueModel::ArrayBool(v@),
        Value::ArrayString(v) => ValueModel::ArrayString(texts_view(v@)),
        Value::ArrayBytes(v) => ValueModel::ArrayBytes(blobs_view(v@)),
        Value::ArrayU64(v) => ValueModel::ArrayU64(v@),
        Value::ArrayI64(v) => ValueModel::ArrayI64(v@),
        Value::ArrayF64(v) => ValueModel::ArrayF64(v@),
        Value::ArrayDate(v) => ValueModel::ArrayDate(v@),
        Value::ArrayDynamic(v) => ValueModel::ArrayDynamic(
            Seq::new(
                v@.len(),
                |i: int|
                    if 0 <= i < v@.len() {
                        model_of(v@[i])
                    } else {
                        ValueModel::Null
                    },
            ),
        ),
        Value::Object(v) => ValueModel::Object(
            Seq::new(
                v@.len(),
                |i: int|
                    if 0 <= i < v@.len() {
                        (v@[i].0@, model_of(v@[i].1))
                    } else {
                        (Seq::empty(), ValueModel::Null)
                    },
            ),
        ),
    }
}

impl View for Value {
    type V = ValueModel;

    open spec fn view(&self) -> ValueModel {
        model_of(*self)
    }
}

/// The view of a dynamic array is the run of its items' views.
pub proof fn lemma_view_array_dynamic(value: &Value)
    requires
        value is ArrayDynamic,
    ensures
        value@ == ValueModel::ArrayDynamic(values_view(value->ArrayDynamic_0@)),
{
    let v = value->ArrayDynamic_0;
    assert(value@->ArrayDynamic_0 =~= values_view(v@));
}

/// The view of an object is the run of its entries' views.
pub proof fn lemma_view_object(value: &Value)
    requires
        value is Object,
    ensures
        value@ == ValueModel::Object(pairs_view(value->Object_0@)),
{
    let v = value->Object_0;
    assert(value@->Object_0 =~= pairs_view(v@));
}

/// The short name of a value's kind.
pub open spec fn kind_name(value: ValueModel) -> Seq<char> {
    match value {
        ValueModel::Null => "null"@,
        ValueModel::Bool(_) => "bool"@,
        ValueModel::String(_) => "string"@,
        ValueModel::Bytes(_) => "bytes"@,
        ValueModel::U64(_) => "u64"@,
        ValueModel::I64(_) => "i64"@,
        ValueModel::F64(_) => "f64"@,
        ValueModel::Date(_) => "datetime"@,
        ValueModel::ArrayBool(_) => "array<bool>"@,
        ValueModel::ArrayString(_) => "array<string>"@,
        ValueModel::ArrayBytes(_) => "array<bytes>"@,
        ValueModel::ArrayU64(_) => "array<u64>"@,
        ValueModel::ArrayI64(_) => "array<i64>"@,
        ValueModel::ArrayF64(_) => "array<f64>"@,
        ValueModel::ArrayDate(_) => "array<datetime>"@,
        ValueModel::ArrayDynamic(_) => "array<any>"@,
        ValueModel::Object(_) => "object"@,
    }
}

impl Value {
    /// The short name of this value's kind. It depends on the variant
    /// alone, never on what the variant holds.
    pub fn as_type(&self) -> (r: &'static str)
        ensures
            r@ == kind_name(self@),
    {
        match self {
            Value::Null => "null",
            Value::Bool(_) => "bool",
            Value::String(_) => "string",
            Value::Bytes(_) => "bytes",
            Value::U64(_) => "u64",
            Value::I64(_) => "i64",
            Value::F64(_) => "f64",
            Value::Date(_) => "datetime",
            Value::ArrayBool(_) => "array<bool>",
            Value::ArrayString(_) => "array<string>",
            Value::ArrayBytes(_) => "array<bytes>",
            Value::ArrayU64(_) => "array<u64>",
            Value::ArrayI64(_) => "array<i64>",
            Value::ArrayF64(_) => "array<f64>",
            Value::ArrayDate(_) => "array<datetime>",
            Value::ArrayDynamic(_) => "array<any>",
            Value::Object(_) => "object",
        }
    }

    /// The short name of this value's kind, as an owned string.
    pub fn to_string(&self) -> (r: String)
        ensures
            r@ == kind_name(self@),
    {
        self.as_type().to_owned()
    }
}

fn clone_texts(texts: &Vec<Text>) -> (r: Vec<Text>)
    ensures
        texts_view(r@) == texts_view(texts@),
{
    let mut out: Vec<Text> = Vec::with_capacity(texts.len());
    let mut i: usize = 0;
    while i < texts.len()
        invariant
            i <= texts@.len(),
            out@.len() == i,
            forall|j: int| 0 <= j < i ==> out@[j]@ == texts@[j]@,
        decreases texts@.len() - i,
    {
        out.push(texts[i].clone());
        i += 1;
    }
    assert(texts_view(out@) =~= texts_view(texts@));
    out
}

fn clone_blobs(blobs: &Vec<Bytes>) -> (r: Vec<Bytes>)
    ensures
        blobs_view(r@) == blobs_view(blobs@),
{
    let mut out: Vec<Bytes> = Vec::with_capacity(blobs.len());
    let mut i: usize = 0;
    while i < blobs.len()
        invariant
            i <= blobs@.len(),
            out@.len() == i,
            forall|j: int| 0 <= j < i ==> out@[j]@ == blobs@[j]@,
        decreases blobs@.len() - i,
    {
        out.push(blobs[i].clone());
        i += 1;
    }
    assert(blobs_view(out@) =~= blobs_view(blobs@));
    out
}

fn clone_scalars<T: Copy>(items: &Vec<T>) -> (r: Vec<T>)
    ensures
        r@ == items@,
{
    vstd::slice::slice_to_vec(items.as_slice())
}

fn clone_pairs(pairs: &Vec<(Text, Value)>) -> (r: Vec<(Text, Value)>)
    ensures
        pairs_view(r@) == pairs_view(pairs@),
    decreases pairs@, 0int,
{
    let mut out: Vec<(Text, Value)> = Vec::with_capacity(pairs.len());
    let mut i: usize = 0;
    while i < pairs.len()
        invariant
            i <= pairs@.len(),
            out@.len() == i,
            forall|j: int| 0 <= j < i ==> out@[j].0@ == pairs@[j].0@ && out@[j].1@ == pairs@[j].1@,
        decreases pairs@.len() - i,
    {
        let key = pairs[i].0.clone();
        let value = pairs[i].1.duplicate();
        out.push((key, value));
        i += 1;
    }
    assert(pairs_view(out@) =~= pairs_view(pairs@));
    out
}

impl Value {
    /// A deep copy of this value.
    pub fn duplicate(&self) -> (r: Value)
        ensures
            r@ == self@,
        decreases *self, 1int,
    {
        match self {
            Value::Null => Value::Null,
            Value::Bool(b) => Value::Bool(*b),
            Value::String(t) => Value::String(t.clone()),
            Value::Bytes(b) => Value::Bytes(b.clone()),
            Value::U64(x) => Value::U64(*x),
            Value::I64(x) => Value::I64(*x),
            Value::F64(x) => Value::F64(*x),
            Value::Date(x) => Value::Date(*x),
            Value::ArrayBool(v) => Value::ArrayBool(clone_scalars(v)),
            Value::ArrayString(v) => Value::ArrayString(clone_texts(v)),
            Value::ArrayBytes(v) => Value::ArrayBytes(clone_blobs(v)),
            Value::ArrayU64(v) => Value::ArrayU64(clone_scalars(v)),
            Value::ArrayI64(v) => Value::ArrayI64(clone_scalars(v)),
            Value::ArrayF64(v) => Value::ArrayF64(clone_scalars(v)),
            Value::ArrayDate(v) => Value::ArrayDate(clone_scalars(v)),
            Value::ArrayDynamic(v) => {
                let mut out: Vec<Value> = Vec::with_capacity(v.len());
                let mut i: usize = 0;
                while i < v.len()
                    invariant
                        i <= v@.len(),
                        out@.len() == i,
                        self matches Value::ArrayDynamic(w) && w == v,
                        forall|j: int| 0 <= j < i ==> out@[j]@ == v@[j]@,
                    decreases v@.len() - i,
                {
                    out.push(v[i].duplicate());
                    i += 1;
                }
                let r = Value::ArrayDynamic(out);
                proof {
                    lemma_view_array_dynamic(&r);
                    lemma_view_array_dynamic(self);
                    assert(values_view(out@) =~= values_view(v@));
                }
                r
            },
            Value::Object(v) => {
                let out = clone_pairs(v);
                let r = Value::Object(out);
                proof {
                    lemma_view_object(&r);
                    lemma_view_object(self);
                }
                r
            },
        }
    }
}

impl Clone for Value {
    fn clone(&self) -> (r: Value)
        ensures
            r@ == self@,
    {
        self.duplicate()
    }
}

impl From<bool> for Value {
    fn from(v: bool) -> (r: Value) {
        Value::Bool(v)
    }
}

impl FromSpecImpl<bool> for Value {
    open spec fn obeys_from_spec() -> bool {
        true
    }

    open spec fn from_spec(v: bool) -> Value {
        Value::Bool(v)
    }
}

impl From<u64> for Value {
    fn from(v: u64) -> (r: Value) {
        Value::U64(v)
    }
}

impl FromSpecImpl<u64> for Value {
    open spec fn obeys_from_spec() -> bool {
        true
    }

    open spec fn from_spec(v: u64) -> Value {
        Value::U64(v)
    }
}

impl From<i64> for Value {
    fn from(v: i64) -> (r: Value) {
        Value::I64(v)
    }
}

impl FromSpecImpl<i64> for Value {
    open spec fn obeys_from_spec() -> bool {
        true
    }

    open spec fn from_spec(v: i64) -> Value {
        Value::I64(v)
    }
}

impl From<Text> for Value {
    fn from(v: Text) -> (r: Value) {
        Value::String(v)
    }
}

impl FromSpecImpl<Text> for Value {
    open spec fn obeys_from_spec() -> bool {
        true
    }

    open spec fn from_spec(v: Text) -> Value {
        Value::String(v)
    }
}

impl From<Bytes> for Value {
    fn from(v: Bytes) -> (r: Value) {
        Value::Bytes(v)
    }
}

impl FromSpecImpl<Bytes> for Value {
    open spec fn obeys_from_spec() -> bool {
        true
    }

    open spec fn from_spec(v: Bytes) -> Value {
        Value::Bytes(v)
    }
}

impl From<Vec<bool>> for Value {
    fn from(v: Vec<bool>) -> (r: Value) {
        Value::ArrayBool(v)
    }
}

impl FromSpecImpl<Vec<bool>> for Value {
    open spec fn obeys_from_spec() -> bool {
        true
    }

    open spec fn from_spec(v: Vec<bool>) -> Value {
        Value::ArrayBool(v)
    }
}

impl From<Vec<u64>> for Value {
    fn from(v: Vec<u64>) -> (r: Value) {
        Value::ArrayU64(v)
    }
}

impl FromSpecImpl<Vec<u64>> for Value {
    open spec fn obeys_from_spec() -> bool {
        true
    }

    open spec fn from_spec(v: Vec<u64>) -> Value {
        Value::ArrayU64(v)
    }
}

impl From<Vec<i64>> for Value {
    fn from(v: Vec<i64>) -> (r: Value) {
        Value::ArrayI64(v)
    }
}

impl FromSpecImpl<Vec<i64>> for Value {
    open spec fn obeys_from_spec() -> bool {
        true
    }

    open spec fn from_spec(v: Vec<i64>) -> Value {
        Value::ArrayI64(v)
    }
}

impl From<Vec<Text>> for Value {
    fn from(v: Vec<Text>) -> (r: Value) {
        Value::ArrayString(v)
    }
}

impl FromSpecImpl<Vec<Text>> for Value {
    open spec fn obeys_from_spec() -> bool {
        true
    }

    open spec fn from_spec(v: Vec<Text>) -> Value {
        Value::ArrayString(v)
    }
}

impl From<Vec<Bytes>> for Value {
    fn from(v: Vec<Bytes>) -> (r: Value) {
        Value::ArrayBytes(v)
    }
}

impl FromSpecImpl<Vec<Bytes>> for Value {
    open spec fn obeys_from_spec() -> bool {
        true
    }

    open spec fn from_spec(v: Vec<Bytes>) -> Value {
        Value::ArrayBytes(v)
    }
}

impl From<String> for Value {
    fn from(v: String) -> (r: Value)
        ensures
            r@ == ValueModel::String(vstd::utf8::encode_utf8(v@)),
    {
        Value::String(Text::from_string(v))
    }
}

impl FromSpecImpl<String> for Value {
    open spec fn obeys_from_spec() -> bool {
        false
    }

    open spec fn from_spec(v: String) -> Value {
        arbitrary()
    }
}

impl From<&str> for Value {
    fn from(v: &str) -> (r: Value)
        ensures
            r@ == ValueModel::String(vstd::utf8::encode_utf8(v@)),
    {
        Value::String(Text::from_str(v))
    }
}

impl FromSpecImpl<&str> for Value {
    open spec fn obeys_from_spec() -> bool {
        false
    }

    open spec fn from_spec(v: &str) -> Value {
        arbitrary()
    }
}

impl From<Vec<u8>> for Value {
    fn from(v: Vec<u8>) -> (r: Value)
        ensures
            r@ == ValueModel::Bytes(v@),
    {
        Value::Bytes(Bytes::new(v))
    }
}

impl FromSpecImpl<Vec<u8>> for Value {
    open spec fn obeys_from_spec() -> bool {
        false
    }

    open spec fn from_spec(v: Vec<u8>) -> Value {
        arbitrary()
    }
}

/// Whether two runs of bytes are the same.
pub(crate) fn same_bytes(a: &[u8], b: &[u8]) -> (r: bool)
    ensures
        r == (a@ == b@),
{
    if a.len() != b.len() {
        return false;
    }
    let mut i: usize = 0;
    while i < a.len()
        invariant
            i <= a@.len(),
            a@.len() == b@.len(),
            forall|j: int| 0 <= j < i ==> a@[j] == b@[j],
        decreases a@.len() - i,
    {
        if a[i] != b[i] {
            return false;
        }
        i += 1;
    }
    proof {
        assert(a@ =~= b@);
    }
    true
}

fn same_bools(a: &Vec<bool>, b: &Vec<bool>) -> (r: bool)
    ensures
        r == (a@ == b@),
{
    if a.len() != b.len() {
        return false;
    }
    let mut i: usize = 0;
    while i < a.len()
        invariant
            i <= a@.len(),
            a@.len() == b@.len(),
            forall|j: int| 0 <= j < i ==> a@[j] == b@[j],
        decreases a@.len() - i,
    {
        if a[i] != b[i] {
            return false;
        }
        i += 1;
    }
    proof {
        assert(a@ =~= b@);
    }
    true
}

fn same_u64s(a: &Vec<u64>, b: &Vec<u64>) -> (r: bool)
    ensures
        r == (a@ == b@),
{
    if a.len() != b.len() {
        return false;
    }
    let mut i: usize = 0;
    while i < a.len()
        invariant
            i <= a@.len(),
            a@.len() == b@.len(),
            forall|j: int| 0 <= j < i ==> a@[j] == b@[j],
        decreases a@.len() - i,
    {
        if a[i] != b[i] {
            return false;
        }
        i += 1;
    }
    proof {
        assert(a@ =~= b@);
    }
    true
}

fn same_i64s(a: &Vec<i64>, b: &Vec<i64>) -> (r: bool)
    ensures
        r == (a@ == b@),
{
    if a.len() != b.len() {
        return false;
    }
    let mut i: usize = 0;
    while i < a.len()
        invariant
            i <= a@.len(),
            a@.len() == b@.len(),
            forall|j: int| 0 <= j < i ==> a@[j] == b@[j],
        decreases a@.len() - i,
    {
        if a[i] != b[i] {
            return false;
        }
        i += 1;
    }
    proof {
        assert(a@ =~= b@);
    }
    true
}

fn same_texts(a: &Vec<Text>, b: &Vec<Text>) -> (r: bool)
    ensures
        r == (texts_view(a@) == texts_view(b@)),
{
    if a.len() != b.len() {
        assert(texts_view(a@).len() != texts_view(b@).len());
        return false;
    }
    let mut i: usize = 0;
    while i < a.len()
        invariant
            i <= a@.len(),
            a@.len() == b@.len(),
            forall|j: int| 0 <= j < i ==> a@[j]@ == b@[j]@,
        decreases a@.len() - i,
    {
        if !a[i].equals(&b[i]) {
            assert(texts_view(a@)[i as int] != texts_view(b@)[i as int]);
            return false;
        }
        i += 1;
    }
    proof {
        assert(texts_view(a@) =~= texts_view(b@));
    }
    true
}

fn same_blobs(a: &Vec<Bytes>, b: &Vec<Bytes>) -> (r: bool)
    ensures
        r == (blobs_view(a@) == blobs_view(b@)),
{
    if a.len() != b.len() {
        assert(blobs_view(a@).len() != blobs_view(b@).len());
        return false;
    }
    let mut i: usize = 0;
    while i < a.len()
        invariant
            i <= a@.len(),
            a@.len() == b@.len(),
            forall|j: int| 0 <= j < i ==> a@[j]@ == b@[j]@,
        decreases a@.len() - i,
    {
        if !a[i].equals(&b[i]) {
            assert(blobs_view(a@)[i as int] != blobs_view(b@)[i as int]);
            return false;
        }
        i += 1;
    }
    proof {
        assert(blobs_view(a@) =~= blobs_view(b@));
    }
    true
}

fn same_values(a: &Vec<Value>, b: &Vec<Value>) -> (r: bool)
    ensures
        r == (values_view(a@) == values_view(b@)),
    decreases a@, 0int,
{
    if a.len() != b.len() {
        assert(values_view(a@).len() != values_view(b@).len());
        return false;
    }
    let mut i: usize = 0;
    while i < a.len()
        invariant
            i <= a@.len(),
            a@.len() == b@.len(),
            forall|j: int| 0 <= j < i ==> a@[j]@ == b@[j]@,
        decreases a@.len() - i,
    {
        if !a[i].equals(&b[i]) {
            assert(values_view(a@)[i as int] != values_view(b@)[i as int]);
            return false;
        }
        i += 1;
    }
    proof {
        assert(values_view(a@) =~= values_view(b@));
    }
    true
}

fn same_pairs(a: &[(Text, Value)], b: &[(Text, Value)]) -> (r: bool)
    ensures
        r == (pairs_view(a@) == pairs_view(b@)),
    decreases a@, 0int,
{
    if a.len() != b.len() {
        assert(pairs_view(a@).len() != pairs_view(b@).len());
        return false;
    }
    let mut i: usize = 0;
    while i < a.len()
        invariant
            i <= a@.len(),
            a@.len() == b@.len(),
            forall|j: int| 0 <= j < i ==> a@[j].0@ == b@[j].0@ && a@[j].1@ == b@[j].1@,
        decreases a@.len() - i,
    {
        if !a[i].0.equals(&b[i].0) || !a[i].1.equals(&b[i].1) {
            assert(pairs_view(a@)[i as int] != pairs_view(b@)[i as int]);
            return false;
        }
        i += 1;
    }
    proof {
        assert(pairs_view(a@) =~= pairs_view(b@));
    }
    true
}

impl Text {
    /// Whether two texts hold the same bytes. Case matters.
    pub fn equals(&self, other: &Text) -> (r: bool)
        ensures
            r == (self@ == other@),
    {
        same_bytes(self.0.as_slice(), other.0.as_slice())
    }
}

impl Bytes {
    /// Whether two byte strings hold the same bytes.
    pub fn equals(&self, other: &Bytes) -> (r: bool)
        ensures
            r == (self@ == other@),
    {
        same_bytes(self.0.as_slice(), other.0.as_slice())
    }
}

impl Value {
    /// Whether two values are the same: of one kind, and holding the same
    /// payload, item by item in order. The name of the kind plays no part.
    pub fn equals(&self, other: &Value) -> (r: bool)
        ensures
            r == (self@ == other@),
        decreases *self, 1int,
    {
        match (self, other) {
            (Value::Null, Value::Null) => true,
            (Value::Bool(a), Value::Bool(b)) => *a == *b,
            (Value::String(a), Value::String(b)) => a.equals(b),
            (Value::Bytes(a), Value::Bytes(b)) => a.equals(b),
            (Value::U64(a), Value::U64(b)) => *a == *b,
            (Value::I64(a), Value::I64(b)) => *a == *b,
            (Value::F64(a), Value::F64(b)) => *a == *b,
            (Value::Date(a), Value::Date(b)) => *a == *b,
            (Value::ArrayBool(a), Value::ArrayBool(b)) => same_bools(a, b),
            (Value::ArrayString(a), Value::ArrayString(b)) => same_texts(a, b),
            (Value::ArrayBytes(a), Value::ArrayBytes(b)) => same_blobs(a, b),
            (Value::ArrayU64(a), Value::ArrayU64(b)) => same_u64s(a, b),
            (Value::ArrayI64(a), Value::ArrayI64(b)) => same_i64s(a, b),
            (Value::ArrayF64(a), Value::ArrayF64(b)) => same_u64s(a, b),
            (Value::ArrayDate(a), Value::ArrayDate(b)) => same_i64s(a, b),
            (Value::ArrayDynamic(a), Value::ArrayDynamic(b)) => {
                proof {
                    lemma_view_array_dynamic(self);
                    lemma_view_array_dynamic(other);
                }
                same_values(a, b)
            },
            (Value::Object(a), Value::Object(b)) => {
                proof {
                    lemma_view_object(self);
                    lemma_view_object(other);
                }
                same_pairs(a.as_slice(), b.as_slice())
            },
            _ => false,
        }
    }
}

/// A document: an identifier and an ordered list of keys and values.
///
/// The order of the fields is kept as given. Keys may repeat: every entry
/// is kept, in the order of insertion.
#[derive(Debug, PartialEq)]
pub struct Document {
    id: u64,
    fields: Vec<(Text, Value)>,
}

/// What a [`Document`] holds, as plain mathematics.
pub struct DocumentModel {
    pub id: u64,
    pub fields: Seq<(Seq<u8>, ValueModel)>,
}

impl View for Document {
    type V = DocumentModel;

    closed spec fn view(&self) -> DocumentModel {
        DocumentModel { id: self.id, fields: pairs_view(self.fields@) }
    }
}

impl Document {
    /// The fields, as stored.
    pub closed spec fn entries(&self) -> Seq<(Text, Value)> {
        self.fields@
    }

    /// The view is the identifier and the views of the entries.
    pub broadcast proof fn lemma_view(&self)
        ensures
            #[trigger] self@ == (DocumentModel {
                id: self@.id,
                fields: pairs_view(self.entries()),
            }),
    {
    }

    /// An empty document with identifier zero and room for `capacity`
    /// fields.
    pub fn with_capacity(capacity: usize) -> (r: Document)
        ensures
            r@.id == 0,
            r.entries() == Seq::<(Text, Value)>::empty(),
    {
        Document { id: 0, fields: Vec::with_capacity(capacity) }
    }

    /// A document with identifier zero and the given fields.
    pub fn from_fields(fields: Vec<(Text, Value)>) -> (r: Document)
        ensures
            r@.id == 0,
            r.entries() == fields@,
    {
        Document { id: 0, fields }
    }

    /// The identifier of the document.
    pub fn id(&self) -> (r: u64)
        ensures
            r == self@.id,
    {
        self.id
    }

    /// Sets the identifier of the document. The fields stay as they are.
    pub fn set_id(&mut self, v: u64)
        ensures
            final(self)@.id == v,
            final(self).entries() == old(self).entries(),
    {
        self.id = v;
    }

    /// Consumes the document and returns its fields.
    pub fn into_fields(self) -> (r: Vec<(Text, Value)>)
        ensures
            r@ == self.entries(),
    {
        self.fields
    }

    /// The fields of the document, in order, without copying.
    pub fn fields(&self) -> (r: &[(Text, Value)])
        ensures
            r@ == self.entries(),
    {
        self.fields.as_slice()
    }

    /// The number of fields.
    pub fn len(&self) -> (r: usize)
        ensures
            r == self.entries().len(),
    {
        self.fields.len()
    }

    /// Whether two documents are the same: the same identifier and the
    /// same fields, pair by pair in order.
    pub fn equals(&self, other: &Document) -> (r: bool)
        ensures
            r == (self@ == other@),
    {
        self.id == other.id && same_pairs(self.fields.as_slice(), other.fields.as_slice())
    }

    /// The fields of the document, open to change in place. The number of
    /// fields and the identifier cannot change through it.
    pub fn fields_mut(&mut self) -> (r: &mut [(Text, Value)])
        ensures
            r@ == old(self).entries(),
            final(self).entries() == final(r)@,
            final(self)@.id == old(self)@.id,
    {
        self.fields.as_mut_slice()
    }

    /// Appends a field. Earlier fields keep their places, also those with
    /// the same key.
    pub fn push(&mut self, key: Text, value: Value)
        ensures
            final(self).entries() == old(self).entries().push((key, value)),
            final(self)@.id == old(self)@.id,
    {
        self.fields.push((key, value));
    }

    /// Appends a field whose key is what `key` converts to. Earlier fields
    /// keep their places, also those with the same key.
    pub fn insert<K>(&mut self, key: K, value: Value) where Text: From<K>
        ensures
            exists|text: Text|
                call_ensures(<Text as From<K>>::from, (key,), text) && final(self).entries()
                    == old(self).entries().push((text, value)),
            final(self)@.id == old(self)@.id,
    {
        let text: Text = Text::from(key);
        self.push(text, value);
    }
}

impl Clone for Document {
    fn clone(&self) -> (r: Document)
        ensures
            r@ == self@,
    {
        Document { id: self.id, fields: clone_pairs(&self.fields) }
    }
}

impl Default for Document {
    fn default() -> (r: Document)
        ensures
            r@.id == 0,
            r.entries() == Seq::<(Text, Value)>::empty(),
    {
        Document { id: 0, fields: Vec::new() }
    }
}

impl From<Vec<(Text, Value)>> for Document {
    fn from(value: Vec<(Text, Value)>) -> (r: Document)
        ensures
            r@.id == 0,
            r.entries() == value@,
    {
        Document { id: 0, fields: value }
    }
}

impl FromSpecImpl<Vec<(Text, Value)>> for Document {
    open spec fn obeys_from_spec() -> bool {
        true
    }

    closed spec fn from_spec(value: Vec<(Text, Value)>) -> Document {
        Document { id: 0, fields: value }
    }
}

} // verus!
