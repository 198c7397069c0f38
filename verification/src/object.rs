//! Objects as the byte string operations see them, and the arguments made of them.
use vstd::prelude::*;
use vstd::slice::slice_to_vec;

use crate::error::{
    ErrorView, PyError, PyResult, new_index_error, new_overflow_error, new_type_error,
    new_value_error, outcome, index_error, overflow_error, type_error, value_error,
};
use crate::integer::{ByteOr, PyInt};

verus! {

/// An object: its built-in type with its content, or an instance of some other class.
#[derive(Debug)]
pub enum PyObject {
    NoneObject,
    Int(PyInt),
    Str(String),
    Bytes(Vec<u8>),
    ByteArray(Vec<u8>),
    MemoryView(Vec<u8>),
    List(Vec<PyObject>),
    Tuple(Vec<PyObject>),
    Instance(Box<PyInstance>),
}

/// An instance of a class without a built-in representation: the name of its class, and what its
/// special methods give. A method that the class does not have is `None`.
#[derive(Debug)]
pub struct PyInstance {
    pub class_name: String,
    /// What `__bytes__` returns.
    pub bytes_method: Option<PyResult<PyObject>>,
    /// What `__iter__` returns: the results of the successive steps of the iteration.
    pub iter_method: Option<PyResult<Vec<PyResult<PyObject>>>>,
    /// What `__index__` returns.
    pub index_method: Option<PyResult<PyInt>>,
}

/// The object `None` where it is the only object allowed.
#[derive(Debug, Clone, Copy)]
pub struct PyNone;

/// An argument that the caller may leave out.
#[derive(Debug)]
pub enum OptionalArg<T> {
    Present(T),
    Missing,
}

/// An argument of one of two types.
#[derive(Debug)]
pub enum Either<A, B> {
    A(A),
    B(B),
}

/// What a comparison method returns.
#[derive(Debug, Clone, Copy, PartialEq, Eq, Structural)]
pub enum PyComparisonValue {
    Implemented(bool),
    NotImplemented,
}

/// A slice object `start:stop:step`.
#[derive(Debug)]
pub struct PySlice {
    pub start: Option<PyObject>,
    pub stop: PyObject,
    pub step: Option<PyObject>,
}

/// An iterable argument: what taking its iterator gives, and then the results of the successive
/// steps of the iteration.
#[derive(Debug)]
pub struct PyIterable<T> {
    pub steps: PyResult<Vec<PyResult<T>>>,
}

impl<T> OptionalArg<T> {
    /// The argument as an option.
    pub open spec fn spec_into_option(self) -> Option<T> {
        match self {
            OptionalArg::Present(v) => Some(v),
            OptionalArg::Missing => None,
        }
    }

    /// The argument as an option.
    pub fn into_option(self) -> (r: Option<T>)
        ensures
            r == self.spec_into_option(),
    {
        match self {
            OptionalArg::Present(v) => Some(v),
            OptionalArg::Missing => None,
        }
    }
}

impl<T> OptionalArg<Option<T>> {
    /// The argument, where it was given and is not `None`.
    pub open spec fn spec_flat_option(self) -> Option<T> {
        match self {
            OptionalArg::Present(Some(v)) => Some(v),
            _ => None,
        }
    }

    /// The argument, where it was given and is not `None`.
    pub fn flat_option(self) -> (r: Option<T>)
        ensures
            r == self.spec_flat_option(),
    {
        match self {
            OptionalArg::Present(Some(v)) => Some(v),
            _ => None,
        }
    }
}

impl PyComparisonValue {
    /// A result where there is one, `NotImplemented` otherwise.
    pub fn from_option(v: Option<bool>) -> (r: PyComparisonValue)
        ensures
            r == (match v {
                Some(b) => PyComparisonValue::Implemented(b),
                None => PyComparisonValue::NotImplemented,
            }),
    {
        match v {
            Some(b) => PyComparisonValue::Implemented(b),
            None => PyComparisonValue::NotImplemented,
        }
    }
}

/// The values of a run of results up to its end, or its first exception.
pub open spec fn gather<T>(results: Seq<Result<T, ErrorView>>) -> Result<Seq<T>, ErrorView>
    decreases results.len(),
{
    if results.len() == 0 {
        Ok(Seq::empty())
    } else {
        match gather(results.drop_last()) {
            Ok(values) => match results.last() {
                Ok(v) => Ok(values.push(v)),
                Err(e) => Err(e),
            },
            Err(e) => Err(e),
        }
    }
}

/// An exception in a prefix of a run of results is the exception of the whole run.
pub proof fn lemma_gather_prefix<T>(results: Seq<Result<T, ErrorView>>, n: int)
    requires
        0 <= n <= results.len(),
    ensures
        gather(results.take(n)) matches Err(e) ==> gather(results) == Err::<Seq<T>, ErrorView>(e),
    decreases results.len() - n,
{
    if n < results.len() {
        assert(results.take(n + 1).drop_last() =~= results.take(n));
        lemma_gather_prefix(results, n + 1);
    } else {
        assert(results.take(n) =~= results);
    }
}

/// One more result after a prefix without an exception.
pub proof fn lemma_gather_step<T>(results: Seq<Result<T, ErrorView>>, n: int)
    requires
        0 <= n < results.len(),
        gather(results.take(n)) is Ok,
    ensures
        results[n] matches Ok(v) ==> gather(results.take(n + 1)) == Ok::<Seq<T>, ErrorView>(
            gather(results.take(n))->Ok_0.push(v),
        ),
        results[n] matches Err(e) ==> gather(results) == Err::<Seq<T>, ErrorView>(e),
{
    assert(results.take(n + 1).drop_last() =~= results.take(n));
    if results[n] is Err {
        lemma_gather_prefix(results, n + 1);
    }
}

/// The name of an object's class.
pub open spec fn class_name(o: PyObject) -> Seq<char> {
    match o {
        PyObject::NoneObject => "NoneType"@,
        PyObject::Int(_) => "int"@,
        PyObject::Str(_) => "str"@,
        PyObject::Bytes(_) => "bytes"@,
        PyObject::ByteArray(_) => "bytearray"@,
        PyObject::MemoryView(_) => "memoryview"@,
        PyObject::List(_) => "list"@,
        PyObject::Tuple(_) => "tuple"@,
        PyObject::Instance(i) => i.class_name@,
    }
}

/// An object as messages name it.
pub open spec fn description(o: PyObject) -> Seq<char> {
    "'"@ + class_name(o) + "' object"@
}

/// The exception for an object that is no byte string.
pub open spec fn not_bytes_like(o: PyObject) -> ErrorView {
    type_error("a bytes-like object is required, not "@ + class_name(o))
}

/// The exception for an object that is no integer.
pub open spec fn not_an_int(o: PyObject) -> ErrorView {
    type_error("Expected type int, not "@ + class_name(o))
}

/// An object as an item of a byte string.
pub open spec fn item_outcome(o: PyObject) -> Result<u8, ErrorView> {
    match o {
        PyObject::Int(i) => if 0 <= i@ <= u8::MAX {
            Ok(i@ as u8)
        } else {
            Err(overflow_error("Int value cannot fit into Rust u8"@))
        },
        _ => Err(not_an_int(o)),
    }
}

/// An object of a list as an item of a byte string.
pub open spec fn list_item_outcome(o: PyObject) -> Result<u8, ErrorView> {
    match o {
        PyObject::Int(i) => if 0 <= i@ <= u8::MAX {
            Ok(i@ as u8)
        } else {
            Err(value_error("bytes must be in range (0, 256)"@))
        },
        _ => Err(not_an_int(o)),
    }
}

/// One step of an iteration as an item of a byte string.
pub open spec fn step_outcome(step: PyResult<PyObject>) -> Result<u8, ErrorView> {
    match step {
        Ok(o) => item_outcome(o),
        Err(e) => Err(e@),
    }
}

/// One step of an iteration as an object.
pub open spec fn object_outcome(step: PyResult<PyObject>) -> Result<PyObject, ErrorView> {
    match step {
        Ok(o) => Ok(o),
        Err(e) => Err(e@),
    }
}

/// The items of a string as items of a byte string: none of them is an integer.
pub open spec fn text_outcome(s: Seq<char>) -> Result<Seq<u8>, ErrorView> {
    if s.len() == 0 {
        Ok(Seq::empty())
    } else {
        Err(type_error("Expected type int, not str"@))
    }
}

/// An object as a byte string.
pub open spec fn bytes_outcome(o: PyObject) -> Result<Seq<u8>, ErrorView> {
    match o {
        PyObject::Bytes(b) => Ok(b@),
        PyObject::ByteArray(b) => Ok(b@),
        PyObject::MemoryView(b) => Ok(b@),
        PyObject::List(items) => gather(items@.map_values(|x: PyObject| list_item_outcome(x))),
        PyObject::Tuple(items) => gather(items@.map_values(|x: PyObject| item_outcome(x))),
        PyObject::Str(s) => text_outcome(s@),
        PyObject::Instance(i) => match i.iter_method {
            Some(Ok(steps)) => gather(steps@.map_values(|x: PyResult<PyObject>| step_outcome(x))),
            Some(Err(e)) => Err(e@),
            None => Err(not_bytes_like(o)),
        },
        PyObject::NoneObject | PyObject::Int(_) => Err(not_bytes_like(o)),
    }
}

/// The content of a `bytes` or a `bytearray`.
pub open spec fn bytes_like(o: PyObject) -> Option<Seq<u8>> {
    match o {
        PyObject::Bytes(b) => Some(b@),
        PyObject::ByteArray(b) => Some(b@),
        _ => None,
    }
}

/// The exception for an object that no slice of a byte string can be set to.
pub open spec fn not_assignable() -> ErrorView {
    index_error("can assign only bytes, buffers, or iterables of ints in range(0, 256)"@)
}

/// An object as the new content of a slice. An iteration is run to its end before its items are
/// looked at.
pub open spec fn assigned_outcome(o: PyObject) -> Result<Seq<u8>, ErrorView> {
    match o {
        PyObject::Bytes(b) => Ok(b@),
        PyObject::ByteArray(b) => Ok(b@),
        PyObject::MemoryView(b) => Ok(b@),
        PyObject::List(items) => gather(items@.map_values(|x: PyObject| item_outcome(x))),
        PyObject::Tuple(items) => gather(items@.map_values(|x: PyObject| item_outcome(x))),
        PyObject::Str(s) => text_outcome(s@),
        PyObject::Instance(i) => match i.iter_method {
            Some(Ok(steps)) => match gather(
                steps@.map_values(|x: PyResult<PyObject>| object_outcome(x)),
            ) {
                Ok(items) => gather(items.map_values(|x: PyObject| item_outcome(x))),
                Err(e) => Err(e),
            },
            Some(Err(e)) => Err(e@),
            None => Err(not_assignable()),
        },
        PyObject::NoneObject | PyObject::Int(_) => Err(not_assignable()),
    }
}

/// The exception for an object that is no index.
pub open spec fn not_an_index() -> ErrorView {
    type_error("slice indices must be integers or None or have an __index__ method"@)
}

/// An object as a bound or as the step of a slice; `None` leaves it open.
pub open spec fn index_outcome(o: PyObject) -> Result<Option<int>, ErrorView> {
    match o {
        PyObject::NoneObject => Ok(None),
        PyObject::Int(i) => Ok(Some(i@)),
        PyObject::Instance(i) => match i.index_method {
            Some(Ok(v)) => Ok(Some(v@)),
            Some(Err(e)) => Err(e@),
            None => Err(not_an_index()),
        },
        _ => Err(not_an_index()),
    }
}

/// An optional integer.
pub open spec fn opt_int(v: Option<PyInt>) -> Option<int> {
    match v {
        Some(i) => Some(i@),
        None => None,
    }
}

/// A result that is an optional integer.
pub open spec fn opt_int_outcome(r: PyResult<Option<PyInt>>) -> Result<Option<int>, ErrorView> {
    match r {
        Ok(v) => Ok(opt_int(v)),
        Err(e) => Err(e@),
    }
}

impl PySlice {
    pub open spec fn spec_start(self) -> Result<Option<int>, ErrorView> {
        match self.start {
            Some(o) => index_outcome(o),
            None => Ok(None),
        }
    }

    pub open spec fn spec_stop(self) -> Result<Option<int>, ErrorView> {
        index_outcome(self.stop)
    }

    pub open spec fn spec_step(self) -> Result<Option<int>, ErrorView> {
        match self.step {
            Some(o) => index_outcome(o),
            None => Ok(None),
        }
    }
}

/// A bound given as an argument of its own: an integer or `None`.
pub open spec fn slice_arg_outcome(arg: OptionalArg<PyObject>) -> Result<Option<int>, ErrorView> {
    match arg {
        OptionalArg::Present(PyObject::Int(i)) => Ok(Some(i@)),
        OptionalArg::Present(PyObject::NoneObject) => Ok(None),
        OptionalArg::Present(_) => Err(not_an_index()),
        OptionalArg::Missing => Ok(None),
    }
}

/// Whether an object is the integer `v`.
pub open spec fn is_int_object(o: PyObject, v: int) -> bool {
    o matches PyObject::Int(i) && i@ == v
}

/// Whether an object is the `bytes` with the content `b`.
pub open spec fn is_bytes_object(o: PyObject, b: Seq<u8>) -> bool {
    o matches PyObject::Bytes(v) && v@ == b
}

/// A copy of a vector of bytes.
pub fn copy_bytes(v: &Vec<u8>) -> (r: Vec<u8>)
    ensures
        r@ == v@,
{
    slice_to_vec(v.as_slice())
}

impl PyInt {
    /// A copy of an integer.
    pub fn copy(&self) -> (r: PyInt)
        ensures
            r@ == self@,
    {
        PyInt { bytes: copy_bytes(&self.bytes) }
    }
}

impl PyError {
    /// A copy of an exception.
    pub fn copy(&self) -> (r: PyError)
        ensures
            r@ == self@,
    {
        PyError { kind: self.kind, message: self.message.clone() }
    }
}

/// The two strings one after the other.
fn joined(a: &str, b: &str) -> (r: String)
    ensures
        r@ == a@ + b@,
{
    let mut s: String = a.to_owned();
    s.append(b);
    s
}

impl PyObject {
    /// The name of the object's class.
    pub fn class_name(&self) -> (r: String)
        ensures
            r@ == class_name(*self),
    {
        match self {
            PyObject::NoneObject => "NoneType".to_owned(),
            PyObject::Int(_) => "int".to_owned(),
            PyObject::Str(_) => "str".to_owned(),
            PyObject::Bytes(_) => "bytes".to_owned(),
            PyObject::ByteArray(_) => "bytearray".to_owned(),
            PyObject::MemoryView(_) => "memoryview".to_owned(),
            PyObject::List(_) => "list".to_owned(),
            PyObject::Tuple(_) => "tuple".to_owned(),
            PyObject::Instance(i) => i.class_name.clone(),
        }
    }

    /// The object as messages name it.
    pub fn describe(&self) -> (r: String)
        ensures
            r@ == description(*self),
    {
        let mut s: String = joined("'", self.class_name().as_str());
        s.append("' object");
        s
    }

    /// The exception for an object that is no byte string.
    pub fn new_not_bytes_like(&self) -> (e: PyError)
        ensures
            e@ == not_bytes_like(*self),
    {
        new_type_error(
            joined("a bytes-like object is required, not ", self.class_name().as_str()),
        )
    }

    fn not_an_int(&self) -> (e: PyError)
        ensures
            e@ == not_an_int(*self),
    {
        new_type_error(joined("Expected type int, not ", self.class_name().as_str()))
    }

    /// The object as an item of a byte string.
    pub fn to_item(&self) -> (r: PyResult<u8>)
        ensures
            outcome(r) == item_outcome(*self),
    {
        match self {
            PyObject::Int(i) => match i.to_u8() {
                Some(b) => Ok(b),
                None => Err(new_overflow_error("Int value cannot fit into Rust u8".to_owned())),
            },
            _ => Err(self.not_an_int()),
        }
    }

    /// The object of a list as an item of a byte string.
    fn to_list_item(&self) -> (r: PyResult<u8>)
        ensures
            outcome(r) == list_item_outcome(*self),
    {
        match self {
            PyObject::Int(i) => match i.to_u8() {
                Some(b) => Ok(b),
                None => Err(new_value_error("bytes must be in range (0, 256)".to_owned())),
            },
            _ => Err(self.not_an_int()),
        }
    }

    /// The items of a list as a byte string.
    fn list_bytes(items: &Vec<PyObject>) -> (r: PyResult<Vec<u8>>)
        ensures
            outcome(r) == gather(items@.map_values(|x: PyObject| list_item_outcome(x))),
    {
        let mut bytes: Vec<u8> = Vec::new();
        let ghost all = items@.map_values(|x: PyObject| list_item_outcome(x));
        assert(all.take(0) =~= Seq::empty());
        let mut i: usize = 0;
        while i < items.len()
            invariant
                i <= items.len(),
                all == items@.map_values(|x: PyObject| list_item_outcome(x)),
                gather(all.take(i as int)) == Ok::<Seq<u8>, ErrorView>(bytes@),
            decreases items.len() - i,
        {
            proof {
                lemma_gather_step(all, i as int);
            }
            match items[i].to_list_item() {
                Ok(b) => bytes.push(b),
                Err(e) => return Err(e),
            }
            i = i + 1;
        }
        assert(all.take(i as int) =~= all);
        Ok(bytes)
    }

    /// The items of a sequence as a byte string.
    fn sequence_bytes(items: &Vec<PyObject>) -> (r: PyResult<Vec<u8>>)
        ensures
            outcome(r) == gather(items@.map_values(|x: PyObject| item_outcome(x))),
    {
        let mut bytes: Vec<u8> = Vec::new();
        let ghost all = items@.map_values(|x: PyObject| item_outcome(x));
        assert(all.take(0) =~= Seq::empty());
        let mut i: usize = 0;
        while i < items.len()
            invariant
                i <= items.len(),
                all == items@.map_values(|x: PyObject| item_outcome(x)),
                gather(all.take(i as int)) == Ok::<Seq<u8>, ErrorView>(bytes@),
            decreases items.len() - i,
        {
            proof {
                lemma_gather_step(all, i as int);
            }
            match items[i].to_item() {
                Ok(b) => bytes.push(b),
                Err(e) => return Err(e),
            }
            i = i + 1;
        }
        assert(all.take(i as int) =~= all);
        Ok(bytes)
    }

    /// The steps of an iteration as a byte string; each item is looked at as it comes.
    fn steps_bytes(steps: &Vec<PyResult<PyObject>>) -> (r: PyResult<Vec<u8>>)
        ensures
            outcome(r) == gather(steps@.map_values(|x: PyResult<PyObject>| step_outcome(x))),
    {
        let mut bytes: Vec<u8> = Vec::new();
        let ghost all = steps@.map_values(|x: PyResult<PyObject>| step_outcome(x));
        assert(all.take(0) =~= Seq::empty());
        let mut i: usize = 0;
        while i < steps.len()
            invariant
                i <= steps.len(),
                all == steps@.map_values(|x: PyResult<PyObject>| step_outcome(x)),
                gather(all.take(i as int)) == Ok::<Seq<u8>, ErrorView>(bytes@),
            decreases steps.len() - i,
        {
            proof {
                lemma_gather_step(all, i as int);
            }
            match &steps[i] {
                Ok(o) => match o.to_item() {
                    Ok(b) => bytes.push(b),
                    Err(e) => return Err(e),
                },
                Err(e) => return Err(e.copy()),
            }
            i = i + 1;
        }
        assert(all.take(i as int) =~= all);
        Ok(bytes)
    }

    /// The objects of an iteration that is run to its end.
    pub fn steps_objects(steps: &Vec<PyResult<PyObject>>) -> (r: PyResult<Vec<&PyObject>>)
        ensures
            match r {
                Ok(objects) => gather(
                    steps@.map_values(|x: PyResult<PyObject>| object_outcome(x)),
                ) == Ok::<Seq<PyObject>, ErrorView>(
                    objects@.map_values(|x: &PyObject| *x),
                ),
                Err(e) => gather(
                    steps@.map_values(|x: PyResult<PyObject>| object_outcome(x)),
                ) == Err::<Seq<PyObject>, ErrorView>(e@),
            },
    {
        let mut objects: Vec<&PyObject> = Vec::new();
        let ghost all = steps@.map_values(|x: PyResult<PyObject>| object_outcome(x));
        assert(all.take(0) =~= Seq::empty());
        assert(objects@.map_values(|x: &PyObject| *x) =~= Seq::empty());
        let mut i: usize = 0;
        while i < steps.len()
            invariant
                i <= steps.len(),
                all == steps@.map_values(|x: PyResult<PyObject>| object_outcome(x)),
                gather(all.take(i as int)) == Ok::<Seq<PyObject>, ErrorView>(
                    objects@.map_values(|x: &PyObject| *x),
                ),
            decreases steps.len() - i,
        {
            proof {
                lemma_gather_step(all, i as int);
            }
            let ghost before = objects@.map_values(|x: &PyObject| *x);
            match &steps[i] {
                Ok(o) => {
                    objects.push(o);
                    assert(objects@.map_values(|x: &PyObject| *x) =~= before.push(*o));
                },
                Err(e) => return Err(e.copy()),
            }
            i = i + 1;
        }
        assert(all.take(i as int) =~= all);
        Ok(objects)
    }

    fn text_bytes(s: &String) -> (r: PyResult<Vec<u8>>)
        ensures
            outcome(r) == text_outcome(s@),
    {
        if s.as_str().unicode_len() == 0 {
            Ok(Vec::new())
        } else {
            Err(new_type_error("Expected type int, not str".to_owned()))
        }
    }

    /// The object as a byte string.
    pub fn to_bytes(&self) -> (r: PyResult<Vec<u8>>)
        ensures
            outcome(r) == bytes_outcome(*self),
    {
        match self {
            PyObject::Bytes(b) => Ok(copy_bytes(b)),
            PyObject::ByteArray(b) => Ok(copy_bytes(b)),
            PyObject::MemoryView(b) => Ok(copy_bytes(b)),
            PyObject::List(items) => Self::list_bytes(items),
            PyObject::Tuple(items) => Self::sequence_bytes(items),
            PyObject::Str(s) => Self::text_bytes(s),
            PyObject::Instance(i) => match &i.iter_method {
                Some(Ok(steps)) => Self::steps_bytes(steps),
                Some(Err(e)) => Err(e.copy()),
                None => Err(self.new_not_bytes_like()),
            },
            PyObject::NoneObject => Err(self.new_not_bytes_like()),
            PyObject::Int(_) => Err(self.new_not_bytes_like()),
        }
    }

    /// The object as the new content of a slice.
    pub fn to_assigned(&self) -> (r: PyResult<Vec<u8>>)
        ensures
            outcome(r) == assigned_outcome(*self),
    {
        match self {
            PyObject::Bytes(b) => Ok(copy_bytes(b)),
            PyObject::ByteArray(b) => Ok(copy_bytes(b)),
            PyObject::MemoryView(b) => Ok(copy_bytes(b)),
            PyObject::List(items) => Self::sequence_bytes(items),
            PyObject::Tuple(items) => Self::sequence_bytes(items),
            PyObject::Str(s) => Self::text_bytes(s),
            PyObject::Instance(i) => match &i.iter_method {
                Some(Ok(steps)) => match Self::steps_objects(steps) {
                    Ok(objects) => Self::reference_bytes(&objects),
                    Err(e) => Err(e),
                },
                Some(Err(e)) => Err(e.copy()),
                None => Err(Self::not_assignable()),
            },
            PyObject::NoneObject => Err(Self::not_assignable()),
            PyObject::Int(_) => Err(Self::not_assignable()),
        }
    }

    /// The objects of a finished iteration as a byte string.
    fn reference_bytes(objects: &Vec<&PyObject>) -> (r: PyResult<Vec<u8>>)
        ensures
            outcome(r) == gather(
                objects@.map_values(|x: &PyObject| *x).map_values(|x: PyObject| item_outcome(x)),
            ),
    {
        let mut bytes: Vec<u8> = Vec::new();
        let ghost all = objects@.map_values(|x: &PyObject| *x).map_values(
            |x: PyObject| item_outcome(x),
        );
        assert(all.take(0) =~= Seq::empty());
        let mut i: usize = 0;
        while i < objects.len()
            invariant
                i <= objects.len(),
                all == objects@.map_values(|x: &PyObject| *x).map_values(
                    |x: PyObject| item_outcome(x),
                ),
                gather(all.take(i as int)) == Ok::<Seq<u8>, ErrorView>(bytes@),
            decreases objects.len() - i,
        {
            proof {
                lemma_gather_step(all, i as int);
            }
            match objects[i].to_item() {
                Ok(b) => bytes.push(b),
                Err(e) => return Err(e),
            }
            i = i + 1;
        }
        assert(all.take(i as int) =~= all);
        Ok(bytes)
    }

    fn not_assignable() -> (e: PyError)
        ensures
            e@ == not_assignable(),
    {
        new_index_error(
            "can assign only bytes, buffers, or iterables of ints in range(0, 256)".to_owned(),
        )
    }

    fn not_an_index() -> (e: PyError)
        ensures
            e@ == not_an_index(),
    {
        new_type_error(
            "slice indices must be integers or None or have an __index__ method".to_owned(),
        )
    }

    /// The object as a bound or as the step of a slice.
    pub fn to_index(&self) -> (r: PyResult<Option<PyInt>>)
        ensures
            opt_int_outcome(r) == index_outcome(*self),
    {
        match self {
            PyObject::NoneObject => Ok(None),
            PyObject::Int(i) => Ok(Some(i.copy())),
            PyObject::Instance(i) => match &i.index_method {
                Some(Ok(v)) => Ok(Some(v.copy())),
                Some(Err(e)) => Err(e.copy()),
                None => Err(Self::not_an_index()),
            },
            _ => Err(Self::not_an_index()),
        }
    }
}

impl PySlice {
    /// The lower bound of the slice, where it has one.
    pub fn start_index(&self) -> (r: PyResult<Option<PyInt>>)
        ensures
            opt_int_outcome(r) == self.spec_start(),
    {
        match &self.start {
            Some(o) => o.to_index(),
            None => Ok(None),
        }
    }

    /// The upper bound of the slice, where it has one.
    pub fn stop_index(&self) -> (r: PyResult<Option<PyInt>>)
        ensures
            opt_int_outcome(r) == self.spec_stop(),
    {
        self.stop.to_index()
    }

    /// The step of the slice, where it has one.
    pub fn step_index(&self) -> (r: PyResult<Option<PyInt>>)
        ensures
            opt_int_outcome(r) == self.spec_step(),
    {
        match &self.step {
            Some(o) => o.to_index(),
            None => Ok(None),
        }
    }
}

/// A bound given as an argument of its own: an integer, `None`, or a `TypeError`.
pub fn is_valid_slice_arg(arg: OptionalArg<PyObject>) -> (r: PyResult<Option<PyInt>>)
    ensures
        opt_int_outcome(r) == slice_arg_outcome(arg),
{
    match arg {
        OptionalArg::Present(PyObject::Int(i)) => Ok(Some(i)),
        OptionalArg::Present(PyObject::NoneObject) => Ok(None),
        OptionalArg::Present(_) => Err(PyObject::not_an_index()),
        OptionalArg::Missing => Ok(None),
    }
}

} // verus!
