//! Making a byte string from the arguments of a constructor.
use vstd::prelude::*;

use crate::error::{
    ErrorView, PyError, PyResult, new_overflow_error, new_type_error, new_value_error, outcome,
    overflow_error, type_error, value_error,
};
use crate::inner::PyByteInner;
use crate::integer::{ByteOr, PyInt, big_to_isize};
use crate::object::{
    OptionalArg, PyObject, bytes_outcome, class_name, gather, object_outcome,
};
use crate::padding::{fill, filled};

verus! {

/// The arguments of a constructor: the value, and the encoding of a string.
#[derive(Debug)]
pub struct ByteInnerNewOptions {
    pub val_option: OptionalArg<PyObject>,
    pub encoding: OptionalArg<String>,
}

/// The zero bytes of a given number, which an index must be able to hold.
pub open spec fn zeros_outcome(size: int) -> Result<Seq<u8>, ErrorView> {
    if !(isize::MIN <= size <= isize::MAX) {
        Err(overflow_error("cannot fit 'int' into an index-sized integer"@))
    } else if size < 0 {
        Err(value_error("negative count"@))
    } else {
        Ok(fill(0, size))
    }
}

/// The exception for an object that nothing makes a byte string of.
pub open spec fn not_convertible(o: PyObject) -> ErrorView {
    type_error("cannot convert '"@ + class_name(o) + "' object to bytes"@)
}

/// What the method `__bytes__` of an object gives, where it has one.
pub open spec fn bytes_method(o: PyObject) -> Option<PyResult<PyObject>> {
    match o {
        PyObject::Instance(i) => i.bytes_method,
        _ => None,
    }
}

/// The objects that iterating over an object gives. Any exception on the way is one and the same.
pub open spec fn elements_outcome(o: PyObject) -> Result<Seq<PyObject>, ErrorView> {
    match o {
        PyObject::List(items) => Ok(items@),
        PyObject::Tuple(items) => Ok(items@),
        PyObject::Instance(i) => match i.iter_method {
            Some(Ok(steps)) => match gather(
                steps@.map_values(|x: PyResult<PyObject>| object_outcome(x)),
            ) {
                Ok(objects) => Ok(objects),
                Err(_) => Err(not_convertible(o)),
            },
            _ => Err(not_convertible(o)),
        },
        _ => Err(not_convertible(o)),
    }
}

/// The byte of an element that was converted to an integer.
pub open spec fn element_outcome(converted: PyResult<PyInt>) -> Result<u8, ErrorView> {
    match converted {
        Ok(i) => if 0 <= i@ <= u8::MAX {
            Ok(i@ as u8)
        } else {
            Err(value_error("bytes must be in range(0, 256)"@))
        },
        Err(e) => Err(e@),
    }
}

/// The bytes of elements that were converted to integers, or the first exception.
pub open spec fn converted_outcome(converted: Seq<PyResult<PyInt>>) -> Result<Seq<u8>, ErrorView> {
    gather(converted.map_values(|x: PyResult<PyInt>| element_outcome(x)))
}

/// Whether `to_int` can convert the objects to `converted`, one after the other. The first that
/// gives no byte ends the conversion.
pub open spec fn is_conversion<T: Fn(&PyObject) -> PyResult<PyInt>>(
    to_int: T,
    objects: Seq<PyObject>,
    converted: Seq<PyResult<PyInt>>,
) -> bool {
    &&& converted.len() <= objects.len()
    &&& forall|k: int|
        0 <= k < converted.len() ==> call_ensures(to_int, (&objects[k],), #[trigger] converted[k])
    &&& converted.len() < objects.len() ==> converted_outcome(converted) is Err
}

/// Whether `r` is the byte string that `to_int` makes of the objects.
pub open spec fn converts_to<T: Fn(&PyObject) -> PyResult<PyInt>>(
    to_int: T,
    objects: Seq<PyObject>,
    r: Result<Seq<u8>, ErrorView>,
) -> bool {
    exists|converted: Seq<PyResult<PyInt>>| #[trigger]
        is_conversion(to_int, objects, converted) && r == converted_outcome(converted)
}

/// Whether `r` is what `encode` makes of a string.
pub open spec fn encodes_to<E: Fn(&String, &String) -> PyResult<Vec<u8>>>(
    encode: E,
    text: String,
    encoding: String,
    r: Result<Seq<u8>, ErrorView>,
) -> bool {
    exists|encoded: PyResult<Vec<u8>>| #[trigger]
        call_ensures(encode, (&text, &encoding), encoded) && r == outcome(encoded)
}

/// Whether `r` is the byte string of an object without an encoding.
pub open spec fn constructs<T: Fn(&PyObject) -> PyResult<PyInt>>(
    to_int: T,
    o: PyObject,
    r: Result<Seq<u8>, ErrorView>,
) -> bool {
    match o {
        PyObject::Int(i) => r == zeros_outcome(i@),
        PyObject::Str(_) => r == Err::<Seq<u8>, ErrorView>(
            type_error("string argument without an encoding"@),
        ),
        PyObject::Bytes(b) => r == Ok::<Seq<u8>, ErrorView>(b@),
        PyObject::ByteArray(b) => r == Ok::<Seq<u8>, ErrorView>(b@),
        PyObject::MemoryView(b) => r == Ok::<Seq<u8>, ErrorView>(b@),
        _ => match bytes_method(o) {
            Some(Ok(bytes)) => r == bytes_outcome(bytes),
            Some(Err(e)) => r == Err::<Seq<u8>, ErrorView>(e@),
            None => match elements_outcome(o) {
                Ok(objects) => converts_to(to_int, objects, r),
                Err(e) => r == Err::<Seq<u8>, ErrorView>(e),
            },
        },
    }
}

/// The exception for an object that nothing makes a byte string of.
fn new_not_convertible(o: &PyObject) -> (e: PyError)
    ensures
        e@ == not_convertible(*o),
{
    let mut s: String = "cannot convert '".to_owned();
    s.append(o.class_name().as_str());
    s.append("' object to bytes");
    new_type_error(s)
}

/// The zero bytes of a given number.
fn zeros(size: &PyInt) -> (r: PyResult<Vec<u8>>)
    ensures
        outcome(r) == zeros_outcome(size@),
{
    match big_to_isize(&size.bytes) {
        Some(n) => if n < 0 {
            Err(new_value_error("negative count".to_owned()))
        } else {
            Ok(filled(0, n as usize))
        },
        None => Err(
            new_overflow_error("cannot fit 'int' into an index-sized integer".to_owned()),
        ),
    }
}

/// References to the objects of a vector.
fn references(items: &Vec<PyObject>) -> (r: Vec<&PyObject>)
    ensures
        r@.map_values(|x: &PyObject| *x) == items@,
{
    let mut objects: Vec<&PyObject> = Vec::new();
    let mut i: usize = 0;
    while i < items.len()
        invariant
            i <= items.len(),
            objects@.len() == i,
            forall|k: int| 0 <= k < i ==> *(#[trigger] objects@[k]) == items@[k],
        decreases items.len() - i,
    {
        objects.push(&items[i]);
        i = i + 1;
    }
    assert(objects@.map_values(|x: &PyObject| *x) =~= items@);
    objects
}

/// The objects that iterating over an object gives.
fn elements(o: &PyObject) -> (r: PyResult<Vec<&PyObject>>)
    ensures
        match (r, elements_outcome(*o)) {
            (Ok(objects), Ok(s)) => objects@.map_values(|x: &PyObject| *x) == s,
            (Err(e), Err(f)) => e@ == f,
            _ => false,
        },
{
    match o {
        PyObject::List(items) => Ok(references(items)),
        PyObject::Tuple(items) => Ok(references(items)),
        PyObject::Instance(i) => match &i.iter_method {
            Some(Ok(steps)) => match PyObject::steps_objects(steps) {
                Ok(objects) => Ok(objects),
                Err(_) => Err(new_not_convertible(o)),
            },
            _ => Err(new_not_convertible(o)),
        },
        _ => Err(new_not_convertible(o)),
    }
}

/// The byte string that `to_int` makes of the objects.
fn converted_bytes<T: Fn(&PyObject) -> PyResult<PyInt>>(
    objects: &Vec<&PyObject>,
    to_int: &T,
) -> (r: PyResult<Vec<u8>>)
    requires
        forall|o: &PyObject| #[trigger] call_requires(*to_int, (o,)),
    ensures
        converts_to(*to_int, objects@.map_values(|x: &PyObject| *x), outcome(r)),
{
    let ghost all = objects@.map_values(|x: &PyObject| *x);
    let ghost mut converted: Seq<PyResult<PyInt>> = Seq::empty();
    let mut bytes: Vec<u8> = Vec::new();
    let mut i: usize = 0;
    assert(converted.map_values(|x: PyResult<PyInt>| element_outcome(x)) =~= Seq::empty());
    while i < objects.len()
        invariant
            i <= objects.len(),
            all == objects@.map_values(|x: &PyObject| *x),
            forall|o: &PyObject| #[trigger] call_requires(*to_int, (o,)),
            converted.len() == i,
            forall|k: int|
                0 <= k < converted.len() ==> call_ensures(
                    *to_int,
                    (&all[k],),
                    #[trigger] converted[k],
                ),
            converted_outcome(converted) == Ok::<Seq<u8>, ErrorView>(bytes@),
        decreases objects.len() - i,
    {
        let v: PyResult<PyInt> = to_int(objects[i]);
        let ghost before = converted;
        proof {
            converted = converted.push(v);
            let outcomes = converted.map_values(|x: PyResult<PyInt>| element_outcome(x));
            assert(outcomes.drop_last() =~= before.map_values(
                |x: PyResult<PyInt>| element_outcome(x),
            ));
            assert(outcomes.last() == element_outcome(v));
        }
        match v {
            Ok(n) => match n.to_u8() {
                Some(b) => bytes.push(b),
                None => {
                    assert(is_conversion(*to_int, all, converted));
                    return Err(new_value_error("bytes must be in range(0, 256)".to_owned()));
                },
            },
            Err(e) => {
                assert(is_conversion(*to_int, all, converted));
                return Err(e);
            },
        }
        i = i + 1;
    }
    assert(is_conversion(*to_int, all, converted));
    Ok(bytes)
}

impl ByteInnerNewOptions {
    /// Whether `r` is the byte string that the arguments ask for.
    pub open spec fn spec_value<
        E: Fn(&String, &String) -> PyResult<Vec<u8>>,
        T: Fn(&PyObject) -> PyResult<PyInt>,
    >(self, encode: E, to_int: T, r: Result<Seq<u8>, ErrorView>) -> bool {
        match (self.encoding, self.val_option) {
            (OptionalArg::Present(encoding), OptionalArg::Present(PyObject::Str(text))) =>
                encodes_to(encode, text, encoding, r),
            (OptionalArg::Present(_), _) => r == Err::<Seq<u8>, ErrorView>(
                type_error("encoding without a string argument"@),
            ),
            (OptionalArg::Missing, OptionalArg::Present(o)) => constructs(to_int, o, r),
            (OptionalArg::Missing, OptionalArg::Missing) => r == Ok::<Seq<u8>, ErrorView>(
                Seq::empty(),
            ),
        }
    }

    /// The byte string that the arguments ask for. `encode` encodes a string with the name of an
    /// encoding, and `to_int` converts an object to an integer.
    pub fn get_value<
        E: Fn(&String, &String) -> PyResult<Vec<u8>>,
        T: Fn(&PyObject) -> PyResult<PyInt>,
    >(self, encode: E, to_int: T) -> (r: PyResult<PyByteInner>)
        requires
            forall|text: &String, encoding: &String| #[trigger]
                call_requires(encode, (text, encoding)),
            forall|o: &PyObject| #[trigger] call_requires(to_int, (o,)),
        ensures
            self.spec_value(encode, to_int, outcome(r)),
    {
        let value: PyResult<Vec<u8>> = match self.encoding {
            OptionalArg::Present(encoding) => match self.val_option {
                OptionalArg::Present(PyObject::Str(text)) => encode(&text, &encoding),
                _ => Err(new_type_error("encoding without a string argument".to_owned())),
            },
            OptionalArg::Missing => match self.val_option {
                OptionalArg::Present(o) => Self::object_value(o, to_int),
                OptionalArg::Missing => Ok(Vec::new()),
            },
        };
        match value {
            Ok(elements) => Ok(PyByteInner { elements }),
            Err(e) => Err(e),
        }
    }

    /// The byte string of an object without an encoding.
    fn object_value<T: Fn(&PyObject) -> PyResult<PyInt>>(
        o: PyObject,
        to_int: T,
    ) -> (r: PyResult<Vec<u8>>)
        requires
            forall|o: &PyObject| #[trigger] call_requires(to_int, (o,)),
        ensures
            constructs(to_int, o, outcome(r)),
    {
        match o {
            PyObject::Int(i) => zeros(&i),
            PyObject::Str(_) => Err(
                new_type_error("string argument without an encoding".to_owned()),
            ),
            PyObject::Bytes(b) => Ok(b),
            PyObject::ByteArray(b) => Ok(b),
            PyObject::MemoryView(b) => Ok(b),
            _ => {
                if let PyObject::Instance(i) = &o {
                    match &i.bytes_method {
                        Some(Ok(bytes)) => return bytes.to_bytes(),
                        Some(Err(e)) => return Err(e.copy()),
                        None => {},
                    }
                }
                match elements(&o) {
                    Ok(objects) => converted_bytes(&objects, &to_int),
                    Err(e) => Err(e),
                }
            },
        }
    }
}

} // verus!
