//! Laws of what objects and arguments stand for.
use vstd::prelude::*;

use crate::construct::{
    ByteInnerNewOptions, converted_outcome, converts_to, element_outcome, elements_outcome,
    is_conversion, zeros_outcome,
};
use crate::error::{ErrorKind, ErrorView, PyError, PyResult, outcome};
use crate::inner::PyByteInner;
use crate::integer::{PyInt, byte_outcome};
use crate::object::{
    OptionalArg, PyInstance, PyIterable, PyObject, assigned_outcome, bytes_like, bytes_outcome,
    class_name, gather, item_outcome, list_item_outcome, not_bytes_like, object_outcome,
    step_outcome,
};
use crate::options::{
    ByteInnerExpandtabsOptions, ByteInnerSplitOptions, ByteInnerSplitlinesOptions,
    bad_fill_byte, fill_outcome, missing,
};
use crate::transform::{join_outcome, joined};

verus! {

proof fn lemma_gather_ok<T>(results: Seq<Result<T, ErrorView>>, values: Seq<T>)
    requires
        results.len() == values.len(),
        forall|k: int|
            0 <= k < values.len() ==> results[k] == Ok::<T, ErrorView>(#[trigger] values[k]),
    ensures
        gather(results) == Ok::<Seq<T>, ErrorView>(values),
    decreases results.len(),
{
    if results.len() > 0 {
        let n = results.len() - 1;
        assert(results[n] == Ok::<T, ErrorView>(values[n]));
        assert forall|k: int| 0 <= k < values.drop_last().len() implies results.drop_last()[k]
            == Ok::<T, ErrorView>(#[trigger] values.drop_last()[k]) by {
            assert(results[k] == Ok::<T, ErrorView>(values[k]));
        }
        lemma_gather_ok(results.drop_last(), values.drop_last());
        assert(values.drop_last().push(values[n]) =~= values);
    } else {
        assert(values =~= Seq::empty());
    }
}

proof fn lemma_gather_err<T>(results: Seq<Result<T, ErrorView>>, values: Seq<T>, k: int)
    requires
        0 <= k < results.len(),
        values.len() == k,
        forall|j: int| 0 <= j < k ==> results[j] == Ok::<T, ErrorView>(#[trigger] values[j]),
        results[k] is Err,
    ensures
        gather(results) == Err::<Seq<T>, ErrorView>(results[k]->Err_0),
    decreases results.len(),
{
    let n = results.len() - 1;
    if k < n {
        lemma_gather_err(results.drop_last(), values, k);
    } else {
        lemma_gather_ok(results.drop_last(), values);
    }
}

/// A run of results gives all its values where each has one, and else the exception of the first
/// that has none.
pub proof fn law_gather<T>(results: Seq<Result<T, ErrorView>>, values: Seq<T>, k: int)
    ensures
        results.len() == values.len() && (forall|j: int|
            0 <= j < values.len() ==> results[j] == Ok::<T, ErrorView>(#[trigger] values[j]))
            ==> gather(results) == Ok::<Seq<T>, ErrorView>(values),
        0 <= k < results.len() && values.len() == k && (forall|j: int|
            0 <= j < k ==> results[j] == Ok::<T, ErrorView>(#[trigger] values[j])) && results[k] is Err
            ==> gather(results) == Err::<Seq<T>, ErrorView>(results[k]->Err_0),
{
    if results.len() == values.len() && (forall|j: int|
        0 <= j < values.len() ==> results[j] == Ok::<T, ErrorView>(#[trigger] values[j])) {
        lemma_gather_ok(results, values);
    }
    if 0 <= k < results.len() && values.len() == k && (forall|j: int|
        0 <= j < k ==> results[j] == Ok::<T, ErrorView>(#[trigger] values[j])) && results[k] is Err {
        lemma_gather_err(results, values, k);
    }
}

/// A number stands for a byte where it is from 0 to 255, and is refused otherwise.
pub proof fn law_byte(v: int)
    ensures
        0 <= v <= 255 ==> byte_outcome(v) == Ok::<u8, ErrorView>(v as u8),
        !(0 <= v <= 255) ==> (byte_outcome(v) matches Err(e) && e.kind == ErrorKind::ValueError),
{
}

/// Whether the objects are the numbers of the bytes, one by one.
pub open spec fn are_bytes(items: Seq<PyObject>, values: Seq<u8>) -> bool {
    &&& items.len() >= values.len()
    &&& forall|k: int|
        0 <= k < values.len() ==> (items[k] matches PyObject::Int(v) && v@ == #[trigger] values[k])
}

/// An object is a byte string as it is where it holds one. `None` and a number are none, nor is an
/// object of another class without an iteration; a string is one only where it is empty.
pub proof fn law_bytes_of_object(o: PyObject)
    ensures
        o matches PyObject::Bytes(v) ==> {
            &&& bytes_outcome(o) == Ok::<Seq<u8>, ErrorView>(v@)
            &&& assigned_outcome(o) == Ok::<Seq<u8>, ErrorView>(v@)
            &&& bytes_like(o) == Some(v@)
        },
        o matches PyObject::ByteArray(v) ==> {
            &&& bytes_outcome(o) == Ok::<Seq<u8>, ErrorView>(v@)
            &&& assigned_outcome(o) == Ok::<Seq<u8>, ErrorView>(v@)
            &&& bytes_like(o) == Some(v@)
        },
        o matches PyObject::MemoryView(v) ==> {
            &&& bytes_outcome(o) == Ok::<Seq<u8>, ErrorView>(v@)
            &&& assigned_outcome(o) == Ok::<Seq<u8>, ErrorView>(v@)
        },
        !(o is Bytes || o is ByteArray) ==> bytes_like(o) is None,
        o is NoneObject || o is Int || (o matches PyObject::Instance(i) && i.iter_method is None)
            ==> {
            &&& bytes_outcome(o) matches Err(e) && e.kind == ErrorKind::TypeError
            &&& assigned_outcome(o) matches Err(e) && e.kind == ErrorKind::IndexError
        },
        o matches PyObject::Str(t) ==> if t@.len() == 0 {
            &&& bytes_outcome(o) == Ok::<Seq<u8>, ErrorView>(Seq::empty())
            &&& assigned_outcome(o) == Ok::<Seq<u8>, ErrorView>(Seq::empty())
        } else {
            &&& bytes_outcome(o) matches Err(e) && e.kind == ErrorKind::TypeError
            &&& assigned_outcome(o) matches Err(e) && e.kind == ErrorKind::TypeError
        },
{
}

/// A list and a tuple of numbers that are bytes are the byte string of these bytes.
pub proof fn law_bytes_of_items(items: Vec<PyObject>, values: Seq<u8>)
    requires
        are_bytes(items@, values),
        items@.len() == values.len(),
    ensures
        bytes_outcome(PyObject::List(items)) == Ok::<Seq<u8>, ErrorView>(values),
        bytes_outcome(PyObject::Tuple(items)) == Ok::<Seq<u8>, ErrorView>(values),
        assigned_outcome(PyObject::List(items)) == Ok::<Seq<u8>, ErrorView>(values),
        assigned_outcome(PyObject::Tuple(items)) == Ok::<Seq<u8>, ErrorView>(values),
{
    let a = items@.map_values(|x: PyObject| list_item_outcome(x));
    let b = items@.map_values(|x: PyObject| item_outcome(x));
    assert forall|k: int| 0 <= k < values.len() implies a[k] == Ok::<u8, ErrorView>(
        #[trigger] values[k],
    ) && b[k] == Ok::<u8, ErrorView>(values[k]) by {}
    law_gather(a, values, 0);
    law_gather(b, values, 0);
}

/// The first object of a list or a tuple that is no byte is refused: a number with a `ValueError`
/// or an `OverflowError`, another object with a `TypeError`.
pub proof fn law_bytes_refuse_item(items: Vec<PyObject>, values: Seq<u8>, k: int)
    requires
        0 <= k < items@.len(),
        values.len() == k,
        are_bytes(items@, values),
        !(items@[k] matches PyObject::Int(v) && 0 <= v@ <= 255),
    ensures
        bytes_outcome(PyObject::List(items)) matches Err(e) && e.kind == (if items@[k] is Int {
            ErrorKind::ValueError
        } else {
            ErrorKind::TypeError
        }),
        bytes_outcome(PyObject::Tuple(items)) matches Err(e) && e.kind == (if items@[k] is Int {
            ErrorKind::OverflowError
        } else {
            ErrorKind::TypeError
        }),
        assigned_outcome(PyObject::List(items)) == bytes_outcome(PyObject::Tuple(items)),
        assigned_outcome(PyObject::Tuple(items)) == bytes_outcome(PyObject::Tuple(items)),
{
    let a = items@.map_values(|x: PyObject| list_item_outcome(x));
    let b = items@.map_values(|x: PyObject| item_outcome(x));
    assert forall|j: int| 0 <= j < k implies a[j] == Ok::<u8, ErrorView>(#[trigger] values[j])
        && b[j] == Ok::<u8, ErrorView>(values[j]) by {}
    law_gather(a, values, k);
    law_gather(b, values, k);
}

/// An iteration gives the byte string of its numbers where none of its steps raises; where taking
/// the iterator raises, or a step behind numbers that are bytes, that exception is raised.
pub proof fn law_bytes_of_iteration(
    i: Box<PyInstance>,
    items: Seq<PyObject>,
    values: Seq<u8>,
    k: int,
)
    requires
        are_bytes(items, values),
        items.len() == values.len(),
    ensures
        i.iter_method matches Some(Err(e)) ==> {
            &&& bytes_outcome(PyObject::Instance(i)) == Err::<Seq<u8>, ErrorView>(e@)
            &&& assigned_outcome(PyObject::Instance(i)) == Err::<Seq<u8>, ErrorView>(e@)
        },
        i.iter_method matches Some(Ok(steps)) ==> steps@.len() == items.len() && (forall|j: int|
            0 <= j < items.len() ==> steps@[j] == Ok::<PyObject, PyError>(#[trigger] items[j])) ==> {
            &&& bytes_outcome(PyObject::Instance(i)) == Ok::<Seq<u8>, ErrorView>(values)
            &&& assigned_outcome(PyObject::Instance(i)) == Ok::<Seq<u8>, ErrorView>(values)
        },
        i.iter_method matches Some(Ok(steps)) ==> 0 <= k < steps@.len() && k == items.len() && (forall|
            j: int,
        |
            0 <= j < items.len() ==> steps@[j] == Ok::<PyObject, PyError>(#[trigger] items[j]))
            && steps@[k] is Err ==> {
            &&& bytes_outcome(PyObject::Instance(i)) == Err::<Seq<u8>, ErrorView>(
                (steps@[k]->Err_0)@,
            )
            &&& assigned_outcome(PyObject::Instance(i)) == Err::<Seq<u8>, ErrorView>(
                (steps@[k]->Err_0)@,
            )
        },
{
    if let Some(Ok(steps)) = i.iter_method {
        let a = steps@.map_values(|x: PyResult<PyObject>| step_outcome(x));
        let b = steps@.map_values(|x: PyResult<PyObject>| object_outcome(x));
        let c = items.map_values(|x: PyObject| item_outcome(x));
        if steps@.len() >= items.len() && (forall|j: int|
            0 <= j < items.len() ==> steps@[j] == Ok::<PyObject, PyError>(#[trigger] items[j])) {
            assert forall|j: int| 0 <= j < values.len() implies a[j] == Ok::<u8, ErrorView>(
                #[trigger] values[j],
            ) && c[j] == Ok::<u8, ErrorView>(values[j]) by {
                assert(steps@[j] == Ok::<PyObject, PyError>(items[j]));
            }
            assert forall|j: int| 0 <= j < items.len() implies b[j] == Ok::<PyObject, ErrorView>(
                #[trigger] items[j],
            ) by {}
            law_gather(a, values, k);
            law_gather(b, items, k);
            law_gather(c, values, k);
        }
    }
}

/// A number makes as many zeros; a negative one, and one that no index can hold, is refused.
pub proof fn law_zeros(n: int)
    ensures
        0 <= n <= isize::MAX ==> (zeros_outcome(n) matches Ok(v) && v.len() == n && forall|k: int|
            0 <= k < n ==> #[trigger] v[k] == 0),
        isize::MIN <= n < 0 ==> (zeros_outcome(n) matches Err(e) && e.kind
            == ErrorKind::ValueError),
        !(isize::MIN <= n <= isize::MAX) ==> (zeros_outcome(n) matches Err(e) && e.kind
            == ErrorKind::OverflowError),
{
}

/// What a constructor makes of its arguments without calling anything: nothing of none, a byte
/// string of one, zeros of a number; and what it refuses.
pub proof fn law_new<
    E: Fn(&String, &String) -> PyResult<Vec<u8>>,
    T: Fn(&PyObject) -> PyResult<PyInt>,
>(options: ByteInnerNewOptions, encode: E, to_int: T, r: Result<Seq<u8>, ErrorView>)
    requires
        options.spec_value(encode, to_int, r),
    ensures
        options.encoding is Missing && options.val_option is Missing ==> r == Ok::<
            Seq<u8>,
            ErrorView,
        >(Seq::empty()),
        options.encoding is Present && !(options.val_option matches OptionalArg::Present(
            PyObject::Str(_),
        )) ==> (r matches Err(e) && e.kind == ErrorKind::TypeError),
        options.encoding is Missing ==> match options.val_option {
            OptionalArg::Present(PyObject::Int(n)) => r == zeros_outcome(n@),
            OptionalArg::Present(PyObject::Str(_)) => r matches Err(e) && e.kind
                == ErrorKind::TypeError,
            OptionalArg::Present(PyObject::Bytes(v)) => r == Ok::<Seq<u8>, ErrorView>(v@),
            OptionalArg::Present(PyObject::ByteArray(v)) => r == Ok::<Seq<u8>, ErrorView>(v@),
            OptionalArg::Present(PyObject::MemoryView(v)) => r == Ok::<Seq<u8>, ErrorView>(v@),
            OptionalArg::Present(PyObject::NoneObject) => r matches Err(e) && e.kind
                == ErrorKind::TypeError,
            OptionalArg::Present(PyObject::Instance(i)) => match i.bytes_method {
                Some(Ok(o)) => r == bytes_outcome(o),
                Some(Err(e)) => r == Err::<Seq<u8>, ErrorView>(e@),
                None => i.iter_method is None ==> (r matches Err(e) && e.kind
                    == ErrorKind::TypeError),
            },
            _ => true,
        },
{
}

/// What a constructor makes of a string with an encoding is what encoding it gives.
pub proof fn law_new_encodes<
    E: Fn(&String, &String) -> PyResult<Vec<u8>>,
    T: Fn(&PyObject) -> PyResult<PyInt>,
>(
    text: String,
    encoding: String,
    encode: E,
    to_int: T,
    r: Result<Seq<u8>, ErrorView>,
    v: Result<Seq<u8>, ErrorView>,
)
    requires
        (ByteInnerNewOptions {
            val_option: OptionalArg::Present(PyObject::Str(text)),
            encoding: OptionalArg::Present(encoding),
        }).spec_value(encode, to_int, r),
        forall|x: PyResult<Vec<u8>>| #[trigger]
            call_ensures(encode, (&text, &encoding), x) ==> outcome(x) == v,
    ensures
        r == v,
{
}

/// Whether iterating over an object gives these objects, and nothing raises.
pub open spec fn iterates(o: PyObject, items: Seq<PyObject>) -> bool {
    match o {
        PyObject::List(v) => v@ == items,
        PyObject::Tuple(v) => v@ == items,
        PyObject::Instance(i) => i.iter_method matches Some(Ok(steps)) && steps@.len()
            == items.len() && forall|j: int|
            0 <= j < items.len() ==> steps@[j] == Ok::<PyObject, PyError>(#[trigger] items[j]),
        _ => false,
    }
}

/// What a constructor makes of an iterable whose objects are converted to bytes: these bytes. The
/// first that is converted to no byte, or that is not converted, is refused.
pub proof fn law_new_converts<
    E: Fn(&String, &String) -> PyResult<Vec<u8>>,
    T: Fn(&PyObject) -> PyResult<PyInt>,
>(
    o: PyObject,
    items: Seq<PyObject>,
    values: Seq<u8>,
    encode: E,
    to_int: T,
    r: Result<Seq<u8>, ErrorView>,
)
    requires
        iterates(o, items),
        o matches PyObject::Instance(i) ==> i.bytes_method is None,
        values.len() <= items.len(),
        forall|k: int, x: PyResult<PyInt>|
            0 <= k < values.len() && #[trigger] call_ensures(to_int, (&items[k],), x) ==> (
            x matches Ok(n) && n@ == values[k]),
        (ByteInnerNewOptions {
            val_option: OptionalArg::Present(o),
            encoding: OptionalArg::Missing,
        }).spec_value(encode, to_int, r),
    ensures
        values.len() == items.len() ==> r == Ok::<Seq<u8>, ErrorView>(values),
        values.len() < items.len() && (forall|x: PyResult<PyInt>| #[trigger]
            call_ensures(to_int, (&items[values.len() as int],), x) ==> (x matches Ok(n) && !(0
                <= n@ <= 255))) ==> (r matches Err(e) && e.kind == ErrorKind::ValueError),
        values.len() < items.len() && (forall|x: PyResult<PyInt>| #[trigger]
            call_ensures(to_int, (&items[values.len() as int],), x) ==> x is Err) ==> (exists|
            x: PyResult<PyInt>,
        | #[trigger]
            call_ensures(to_int, (&items[values.len() as int],), x) && x is Err && r == Err::<
                Seq<u8>,
                ErrorView,
            >((x->Err_0)@)),
{
    if let PyObject::Instance(i) = o {
        let steps = i.iter_method->0->Ok_0;
        let b = steps@.map_values(|x: PyResult<PyObject>| object_outcome(x));
        assert forall|j: int| 0 <= j < items.len() implies b[j] == Ok::<PyObject, ErrorView>(
            #[trigger] items[j],
        ) by {}
        law_gather(b, items, 0);
    }
    assert(elements_outcome(o) == Ok::<Seq<PyObject>, ErrorView>(items));
    assert(converts_to(to_int, items, r));
    let converted = choose|converted: Seq<PyResult<PyInt>>| #[trigger]
        is_conversion(to_int, items, converted) && r == converted_outcome(converted);
    let all = converted.map_values(|x: PyResult<PyInt>| element_outcome(x));
    let n = values.len() as int;
    let m = if converted.len() < n {
        converted.len() as int
    } else {
        n
    };
    let some = values.take(m);
    assert forall|j: int| 0 <= j < m implies all[j] == Ok::<u8, ErrorView>(#[trigger] some[j]) by {
        assert(call_ensures(to_int, (&items[j],), converted[j]));
    }
    law_gather(all, some, n);
    if converted.len() >= n {
        assert(some =~= values);
        if n < converted.len() {
            assert(call_ensures(to_int, (&items[n],), converted[n]));
            assert(all[n] == element_outcome(converted[n]));
        }
    }
}

/// A constructor refuses an object whose iteration raises, whatever it raises.
pub proof fn law_new_refuses_iteration<
    E: Fn(&String, &String) -> PyResult<Vec<u8>>,
    T: Fn(&PyObject) -> PyResult<PyInt>,
>(i: Box<PyInstance>, k: int, encode: E, to_int: T, r: Result<Seq<u8>, ErrorView>)
    requires
        i.bytes_method is None,
        match i.iter_method {
            Some(Ok(steps)) => 0 <= k < steps@.len() && steps@[k] is Err && forall|j: int|
                0 <= j < k ==> #[trigger] steps@[j] is Ok,
            _ => true,
        },
        (ByteInnerNewOptions {
            val_option: OptionalArg::Present(PyObject::Instance(i)),
            encoding: OptionalArg::Missing,
        }).spec_value(encode, to_int, r),
    ensures
        r matches Err(e) && e.kind == ErrorKind::TypeError && e.message == "cannot convert '"@
            + i.class_name@ + "' object to bytes"@,
{
    if let Some(Ok(steps)) = i.iter_method {
        let b = steps@.map_values(|x: PyResult<PyObject>| object_outcome(x));
        let items = Seq::new(k as nat, |j: int| steps@[j]->Ok_0);
        assert forall|j: int| 0 <= j < k implies b[j] == Ok::<PyObject, ErrorView>(
            #[trigger] items[j],
        ) by {
            assert(steps@[j] is Ok);
        }
        law_gather(b, items, k);
    }
}

/// The names of classes, and the messages that tell them.
pub proof fn law_messages(o: PyObject, name: Seq<char>)
    ensures
        class_name(o) == (match o {
            PyObject::NoneObject => "NoneType"@,
            PyObject::Int(_) => "int"@,
            PyObject::Str(_) => "str"@,
            PyObject::Bytes(_) => "bytes"@,
            PyObject::ByteArray(_) => "bytearray"@,
            PyObject::MemoryView(_) => "memoryview"@,
            PyObject::List(_) => "list"@,
            PyObject::Tuple(_) => "tuple"@,
            PyObject::Instance(i) => i.class_name@,
        }),
        not_bytes_like(o).kind == ErrorKind::TypeError,
        not_bytes_like(o).message == "a bytes-like object is required, not "@ + class_name(o),
        bad_fill_byte(name, o).kind == ErrorKind::TypeError,
        bad_fill_byte(name, o).message == name
            + "() argument 2 must be a byte string of length 1, not "@ + ("'"@ + class_name(o)
            + "' object"@),
{
}

/// How much is missing to a width: nothing where the length reaches it, and where an index cannot
/// hold it.
pub proof fn law_missing(width: int, len: int)
    requires
        0 <= len,
    ensures
        width <= len ==> missing(width, len) == 0,
        len < width <= usize::MAX ==> missing(width, len) == width - len,
        width > usize::MAX ==> missing(width, len) == 0,
{
}

/// The fill byte is the one of a `bytes` or a `bytearray` that holds one, and a space where none is
/// given; anything else is refused.
pub proof fn law_fill_byte(name: Seq<char>, o: PyObject)
    ensures
        fill_outcome(name, OptionalArg::Missing) == Ok::<u8, ErrorView>(32u8),
        match o {
            PyObject::Bytes(v) => if v@.len() == 1 {
                fill_outcome(name, OptionalArg::Present(o)) == Ok::<u8, ErrorView>(v@[0])
            } else {
                fill_outcome(name, OptionalArg::Present(o)) matches Err(e) && e.kind
                    == ErrorKind::TypeError
            },
            PyObject::ByteArray(v) => if v@.len() == 1 {
                fill_outcome(name, OptionalArg::Present(o)) == Ok::<u8, ErrorView>(v@[0])
            } else {
                fill_outcome(name, OptionalArg::Present(o)) matches Err(e) && e.kind
                    == ErrorKind::TypeError
            },
            _ => fill_outcome(name, OptionalArg::Present(o)) matches Err(e) && e.kind
                == ErrorKind::TypeError,
        },
{
}

/// What arguments that are not given stand for: no separator and no limit for a split, eight
/// columns for a tab, and lines without their ends. A tab size that no index can hold is zero.
pub proof fn law_defaults(
    split: ByteInnerSplitOptions,
    tabs: ByteInnerExpandtabsOptions,
    lines: ByteInnerSplitlinesOptions,
)
    ensures
        split.sep matches OptionalArg::Present(Some(v)) ==> split.spec_sep() == v@,
        !(split.sep matches OptionalArg::Present(Some(_))) ==> split.spec_sep().len() == 0,
        split.maxsplit matches OptionalArg::Present(n) ==> split.spec_maxsplit() == n,
        split.maxsplit is Missing ==> split.spec_maxsplit() == -1,
        tabs.tabsize is Missing ==> tabs.spec_tabsize() == 8,
        tabs.tabsize matches OptionalArg::Present(n) ==> tabs.spec_tabsize() == (if 0 <= n@
            <= usize::MAX {
            n@
        } else {
            0
        }),
        lines.keepends is Missing ==> !lines.spec_keepends(),
        lines.keepends matches OptionalArg::Present(b) ==> lines.spec_keepends() == b,
{
}

/// Whether the steps of an iteration give these byte strings, one by one.
pub open spec fn are_parts(steps: Seq<PyResult<PyByteInner>>, parts: Seq<Seq<u8>>) -> bool {
    &&& steps.len() >= parts.len()
    &&& forall|j: int|
        0 <= j < parts.len() ==> (steps[j] matches Ok(v) && v@ == #[trigger] parts[j])
}

/// Joining an iteration joins its byte strings where no step raises, and raises what the first
/// step raises that does, or what taking the iterator raises.
pub proof fn law_join_iteration(
    sep: Seq<u8>,
    iter: PyIterable<PyByteInner>,
    parts: Seq<Seq<u8>>,
)
    ensures
        match iter.steps {
            Err(e) => join_outcome(sep, iter) == Err::<Seq<u8>, ErrorView>(e@),
            Ok(steps) => are_parts(steps@, parts) ==> {
                let k = parts.len() as int;
                &&& steps@.len() == k ==> join_outcome(sep, iter) == Ok::<Seq<u8>, ErrorView>(
                    joined(sep, parts),
                )
                &&& k < steps@.len() && steps@[k] is Err ==> join_outcome(sep, iter) == Err::<
                    Seq<u8>,
                    ErrorView,
                >((steps@[k]->Err_0)@)
            },
        },
{
    if let Ok(steps) = iter.steps {
        let all = steps@.map_values(|r: PyResult<PyByteInner>| outcome(r));
        if are_parts(steps@, parts) {
            assert forall|j: int| 0 <= j < parts.len() implies all[j] == Ok::<Seq<u8>, ErrorView>(
                #[trigger] parts[j],
            ) by {}
            law_gather(all, parts, parts.len() as int);
        }
    }
}

} // verus!
