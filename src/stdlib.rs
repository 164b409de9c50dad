//! The built-in native nodes: their declared shapes, the input accessors
//! that native logic uses, and the branching node.

use vstd::prelude::*;
use vstd::string::StringSliceAdditionalSpecFns;
use crate::graph::{BasicNode, Node};
use crate::names::{lemma_last_delim_of, split_path, GlobalName, StringName, PATH_DELIM};
use crate::registry::{NamespacedType, RegistrationConflict, TypeRegistry};
use crate::value::{entries_map, NodeError, Var, VarRegisters, VarView};

verus! {

/// The value named `field`, when the bank holds one that is not absent;
/// otherwise a null error naming `name` and `field`.
pub fn get_var(name: &GlobalName, inputs: &VarRegisters, field: &StringName) -> (r: Result<
    Var,
    NodeError,
>)
    requires
        inputs.wf(),
    ensures
        match r {
            Ok(v) => inputs@.contains_key(field@) && inputs@[field@] != VarView::Null && v@
                == inputs@[field@],
            Err(e) => (!inputs@.contains_key(field@) || inputs@[field@] == VarView::Null) && (
            e matches NodeError::NullException { name: n, arg, .. } && n@ == name@ && arg@
                == field@),
        },
{
    match inputs.get(field) {
        Some(v) => {
            if v.is_null() {
                Err(
                    NodeError::NullException {
                        name: name.duplicate(),
                        arg: field.duplicate(),
                        msg: "field was found null".to_owned(),
                    },
                )
            } else {
                Ok(v.duplicate())
            }
        },
        None => Err(
            NodeError::NullException {
                name: name.duplicate(),
                arg: field.duplicate(),
                msg: "field was found null".to_owned(),
            },
        ),
    }
}

/// The boolean named `field`: a null error naming `name` and `field`
/// when it is absent, and a mismatch error holding the value found when it
/// is of another kind.
pub fn get_var_bool(name: &GlobalName, inputs: &VarRegisters, field: &StringName) -> (r: Result<
    bool,
    NodeError,
>)
    requires
        inputs.wf(),
    ensures
        (!inputs@.contains_key(field@) || inputs@[field@] == VarView::Null) ==> (r matches Err(
            NodeError::NullException { name: n, arg, .. },
        ) && n@ == name@ && arg@ == field@),
        (inputs@.contains_key(field@) && inputs@[field@] != VarView::Null && !(inputs@[field@] is Bool))
            ==> (r matches Err(NodeError::MismatchedData { name: n, arg, expected, received, .. })
            && n@ == name@ && arg@ == field@ && expected@ == VarView::Bool(false) && received@ == inputs@[field@]),
        r matches Ok(x) ==> inputs@.contains_key(field@) && inputs@[field@] == VarView::Bool(x),
        (inputs@.contains_key(field@) && inputs@[field@] is Bool) ==> r is Ok,
{
    match get_var(name, inputs, field) {
        Err(e) => Err(e),
        Ok(v) => match v {
            Var::Bool(b) => Ok(b),
            _ => Err(
                NodeError::MismatchedData {
                    name: name.duplicate(),
                    arg: field.duplicate(),
                    expected: Var::Bool(false),
                    received: v,
                    msg: String::new(),
                },
            ),
        },
    }
}

/// The text named `field`: a null error naming `name` and `field`
/// when it is absent, and a mismatch error holding the value found when it
/// is of another kind.
pub fn get_var_string(name: &GlobalName, inputs: &VarRegisters, field: &StringName) -> (r: Result<
    String,
    NodeError,
>)
    requires
        inputs.wf(),
    ensures
        (!inputs@.contains_key(field@) || inputs@[field@] == VarView::Null) ==> (r matches Err(
            NodeError::NullException { name: n, arg, .. },
        ) && n@ == name@ && arg@ == field@),
        (inputs@.contains_key(field@) && inputs@[field@] != VarView::Null && !(inputs@[field@] is Text))
            ==> (r matches Err(NodeError::MismatchedData { name: n, arg, expected, received, .. })
            && n@ == name@ && arg@ == field@ && expected@ == VarView::Text(Seq::empty()) && received@ == inputs@[field@]),
        r matches Ok(x) ==> inputs@.contains_key(field@) && inputs@[field@] == VarView::Text(x@),
        (inputs@.contains_key(field@) && inputs@[field@] is Text) ==> r is Ok,
{
    match get_var(name, inputs, field) {
        Err(e) => Err(e),
        Ok(v) => match v {
            Var::String(t) => Ok(t),
            _ => Err(
                NodeError::MismatchedData {
                    name: name.duplicate(),
                    arg: field.duplicate(),
                    expected: Var::String(String::new()),
                    received: v,
                    msg: String::new(),
                },
            ),
        },
    }
}

/// The number, as the bit pattern of a double, named `field`: a null error naming `name` and `field`
/// when it is absent, and a mismatch error holding the value found when it
/// is of another kind.
pub fn get_var_number(name: &GlobalName, inputs: &VarRegisters, field: &StringName) -> (r: Result<
    u64,
    NodeError,
>)
    requires
        inputs.wf(),
    ensures
        (!inputs@.contains_key(field@) || inputs@[field@] == VarView::Null) ==> (r matches Err(
            NodeError::NullException { name: n, arg, .. },
        ) && n@ == name@ && arg@ == field@),
        (inputs@.contains_key(field@) && inputs@[field@] != VarView::Null && !(inputs@[field@] is Num))
            ==> (r matches Err(NodeError::MismatchedData { name: n, arg, expected, received, .. })
            && n@ == name@ && arg@ == field@ && expected@ == VarView::Num(0) && received@ == inputs@[field@]),
        r matches Ok(x) ==> inputs@.contains_key(field@) && inputs@[field@] == VarView::Num(x),
        (inputs@.contains_key(field@) && inputs@[field@] is Num) ==> r is Ok,
{
    match get_var(name, inputs, field) {
        Err(e) => Err(e),
        Ok(v) => match v {
            Var::Num(n) => Ok(n),
            _ => Err(
                NodeError::MismatchedData {
                    name: name.duplicate(),
                    arg: field.duplicate(),
                    expected: Var::Num(0),
                    received: v,
                    msg: String::new(),
                },
            ),
        },
    }
}

/// The branching node: given the boolean `flag`, fires the pulse `if`
/// when it holds and the pulse `else` when it does not. A missing or
/// mistyped flag gives the error of `get_var_bool` for this node.
pub fn node_std_if_else(inputs: &VarRegisters) -> (r: Result<VarRegisters, NodeError>)
    requires
        inputs.wf(),
    ensures
        ({
            let f = "flag".spec_bytes();
            let me = split_path("std.control.if".spec_bytes());
            &&& (inputs@.contains_key(f) && inputs@[f] is Bool) ==> (r matches Ok(out) && out.wf()
                && out@ == Map::<Seq<u8>, VarView>::empty().insert(
                "if".spec_bytes(),
                VarView::Pulse(inputs@[f]->Bool_0),
            ).insert("else".spec_bytes(), VarView::Pulse(!inputs@[f]->Bool_0)))
            &&& (!inputs@.contains_key(f) || inputs@[f] == VarView::Null) ==> (r matches Err(
                NodeError::NullException { name, arg, .. },
            ) && name@ == me && arg@ == f)
            &&& (inputs@.contains_key(f) && inputs@[f] != VarView::Null && !(inputs@[f] is Bool))
                ==> (r matches Err(NodeError::MismatchedData { name, arg, expected, received, .. })
                && name@ == me && arg@ == f && expected@ == VarView::Bool(false) && received@
                == inputs@[f])
        }),
{
    let name = GlobalName::from_path("std.control.if");
    let flag = match get_var_bool(&name, inputs, &StringName::from_text("flag")) {
        Ok(b) => b,
        Err(e) => return Err(e),
    };
    let mut out = VarRegisters::new();
    out.insert(StringName::from_text("if"), Var::Execution(flag));
    out.insert(StringName::from_text("else"), Var::Execution(!flag));
    Ok(out)
}

/// The named values of a shape, as plain values.
pub open spec fn shape_entries(entries: Seq<(&str, Var)>) -> Seq<(Seq<u8>, VarView)> {
    Seq::new(entries.len(), |i: int| (entries[i].0.spec_bytes(), entries[i].1@))
}

/// A bank of the given names, each with its value; a later entry for a
/// name overrides an earlier one.
fn shape(entries: Vec<(&str, Var)>) -> (r: VarRegisters)
    ensures
        r.wf(),
        r@ == entries_map(shape_entries(entries@)),
{
    let ghost all = shape_entries(entries@);
    let mut bank = VarRegisters::new();
    let mut i: usize = 0;
    while i < entries.len()
        invariant
            all == shape_entries(entries@),
            i <= entries@.len(),
            bank.wf(),
            bank@ == entries_map(all.subrange(0, i as int)),
        decreases entries@.len() - i,
    {
        assert(all.subrange(0, i + 1).drop_last() == all.subrange(0, i as int));
        bank.insert(StringName::from_text(entries[i].0), entries[i].1.duplicate());
        i = i + 1;
    }
    assert(all.subrange(0, all.len() as int) == all);
    bank
}

/// The registry holds, under `name`, the native node of that name with
/// the given input and output shapes.
pub open spec fn declares(
    reg: Map<(Seq<u8>, Seq<u8>), Node>,
    name: &str,
    ins: Seq<(Seq<u8>, VarView)>,
    outs: Seq<(Seq<u8>, VarView)>,
) -> bool {
    let key = split_path(name.spec_bytes());
    &&& reg.contains_key(key)
    &&& reg[key] matches Node::Basic(b) && b.name@ == key && b.inputs@ == entries_map(ins)
        && b.outputs@ == entries_map(outs)
}

/// Registers a native node of the given name and shapes.
pub fn add_basic(
    reg: &mut TypeRegistry<Node>,
    name: &str,
    inputs: Vec<(&str, Var)>,
    outputs: Vec<(&str, Var)>,
) -> (r: Result<(), RegistrationConflict>)
    requires
        old(reg).wf(),
    ensures
        final(reg).wf(),
        r.is_ok() == !old(reg)@.contains_key(split_path(name.spec_bytes())),
        r.is_ok() ==> final(reg)@ == old(reg)@.insert(
            split_path(name.spec_bytes()),
            final(reg)@[split_path(name.spec_bytes())],
        ),
        r.is_ok() ==> declares(final(reg)@, name, shape_entries(inputs@), shape_entries(outputs@)),
        r.is_err() ==> final(reg)@ == old(reg)@,
{
    let node = Node::Basic(
        BasicNode { name: GlobalName::from_path(name), inputs: shape(inputs), outputs: shape(outputs) },
    );
    reg.try_register(node)
}

/// The qualified names of the built-in nodes.
pub open spec fn builtin_names() -> Seq<(Seq<u8>, Seq<u8>)> {
    seq![
        split_path("std.print".spec_bytes()),
        split_path("std.control.if".spec_bytes()),
        split_path("std.math.add".spec_bytes()),
        split_path("std.math.subtract".spec_bytes()),
        split_path("std.math.multiply".spec_bytes()),
        split_path("std.math.divide".spec_bytes()),
        split_path("std.vars.value".spec_bytes()),
    ]
}

/// The two operands and one result of an arithmetic node.
pub open spec fn arith_inputs() -> Seq<(Seq<u8>, VarView)> {
    seq![("a".spec_bytes(), VarView::Num(0)), ("b".spec_bytes(), VarView::Num(0))]
}

/// The result of an arithmetic node.
pub open spec fn arith_outputs() -> Seq<(Seq<u8>, VarView)> {
    seq![("c".spec_bytes(), VarView::Num(0))]
}

/// The registry holds each built-in node with its declared shapes.
pub open spec fn holds_builtins(reg: Map<(Seq<u8>, Seq<u8>), Node>) -> bool {
    &&& declares(reg, "std.print", seq![("exec".spec_bytes(), VarView::Pulse(false))], seq![])
    &&& declares(
        reg,
        "std.control.if",
        seq![("flag".spec_bytes(), VarView::Bool(false))],
        seq![("if".spec_bytes(), VarView::Pulse(false)), ("else".spec_bytes(), VarView::Pulse(false))],
    )
    &&& declares(reg, "std.math.add", arith_inputs(), arith_outputs())
    &&& declares(reg, "std.math.subtract", arith_inputs(), arith_outputs())
    &&& declares(reg, "std.math.multiply", arith_inputs(), arith_outputs())
    &&& declares(reg, "std.math.divide", arith_inputs(), arith_outputs())
    &&& declares(
        reg,
        "std.vars.value",
        seq![("value".spec_bytes(), VarView::Text(Seq::empty()))],
        seq![("var".spec_bytes(), VarView::Null)],
    )
}

/// The first byte of the local part of a built-in name.
proof fn lemma_local_first(s: &str, bytes: Seq<u8>, dot: int)
    requires
        s.spec_bytes() == bytes,
        0 <= dot < bytes.len() - 1,
        bytes[dot] == PATH_DELIM,
        forall|j: int| dot < j < bytes.len() ==> bytes[j] != PATH_DELIM,
    ensures
        split_path(s.spec_bytes()).1.len() > 0,
        split_path(s.spec_bytes()).1[0] == bytes[dot + 1],
{
    lemma_last_delim_of(bytes, dot);
}

/// The built-in names are pairwise distinct: their local parts start with
/// different letters.
pub proof fn lemma_builtin_names_distinct()
    ensures
        forall|i: int, j: int|
            0 <= i < j < 7 ==> #[trigger] builtin_names()[i] != #[trigger] builtin_names()[j],
{
    broadcast use vstd::string::is_ascii_spec_bytes;

    reveal_strlit("std.print");
    reveal_strlit("std.control.if");
    reveal_strlit("std.math.add");
    reveal_strlit("std.math.subtract");
    reveal_strlit("std.math.multiply");
    reveal_strlit("std.math.divide");
    reveal_strlit("std.vars.value");
    assert(vstd::string::is_ascii("std.print"));
    assert(vstd::string::is_ascii("std.control.if"));
    assert(vstd::string::is_ascii("std.math.add"));
    assert(vstd::string::is_ascii("std.math.subtract"));
    assert(vstd::string::is_ascii("std.math.multiply"));
    assert(vstd::string::is_ascii("std.math.divide"));
    assert(vstd::string::is_ascii("std.vars.value"));
    let b0 = seq![115u8, 116, 100, 46, 112, 114, 105, 110, 116];
    let b1 = seq![115u8, 116, 100, 46, 99, 111, 110, 116, 114, 111, 108, 46, 105, 102];
    let b2 = seq![115u8, 116, 100, 46, 109, 97, 116, 104, 46, 97, 100, 100];
    let b3 = seq![115u8, 116, 100, 46, 109, 97, 116, 104, 46, 115, 117, 98, 116, 114, 97, 99, 116];
    let b4 = seq![115u8, 116, 100, 46, 109, 97, 116, 104, 46, 109, 117, 108, 116, 105, 112, 108, 121];
    let b5 = seq![115u8, 116, 100, 46, 109, 97, 116, 104, 46, 100, 105, 118, 105, 100, 101];
    let b6 = seq![115u8, 116, 100, 46, 118, 97, 114, 115, 46, 118, 97, 108, 117, 101];
    assert("std.print".spec_bytes() =~= b0);
    assert("std.control.if".spec_bytes() =~= b1);
    assert("std.math.add".spec_bytes() =~= b2);
    assert("std.math.subtract".spec_bytes() =~= b3);
    assert("std.math.multiply".spec_bytes() =~= b4);
    assert("std.math.divide".spec_bytes() =~= b5);
    assert("std.vars.value".spec_bytes() =~= b6);
    lemma_local_first("std.print", b0, 3);
    lemma_local_first("std.control.if", b1, 11);
    lemma_local_first("std.math.add", b2, 8);
    lemma_local_first("std.math.subtract", b3, 8);
    lemma_local_first("std.math.multiply", b4, 8);
    lemma_local_first("std.math.divide", b5, 8);
    lemma_local_first("std.vars.value", b6, 8);
    let firsts = seq![112u8, 105, 97, 115, 109, 100, 118];
    assert forall|i: int| 0 <= i < 7 implies builtin_names()[i].1.len() > 0 && builtin_names()[i].1[0] == firsts[i] by {
    }
}

/// Registers the built-in nodes: printing, branching, arithmetic and
/// literal values. It succeeds exactly when none of their names is taken
/// yet, and then adds each of them with its shapes; otherwise it stops at
/// the first name that is taken.
pub fn register(reg: &mut TypeRegistry<Node>) -> (r: Result<(), RegistrationConflict>)
    requires
        old(reg).wf(),
    ensures
        final(reg).wf(),
        r.is_ok() == forall|i: int| 0 <= i < 7 ==> !old(reg)@.contains_key(#[trigger] builtin_names()[i]),
        r.is_ok() ==> holds_builtins(final(reg)@),
        r.is_ok() ==> old(reg)@.submap_of(final(reg)@),
        r.is_ok() ==> final(reg)@.dom() == old(reg)@.dom() + builtin_names().to_set(),
{
    proof {
        lemma_builtin_names_distinct();
    }
    let ghost r0 = reg@;
    let ghost k = builtin_names();
    assert(k[0] == split_path("std.print".spec_bytes()));
    assert(k[1] == split_path("std.control.if".spec_bytes()));
    assert(k[2] == split_path("std.math.add".spec_bytes()));
    assert(k[3] == split_path("std.math.subtract".spec_bytes()));
    assert(k[4] == split_path("std.math.multiply".spec_bytes()));
    assert(k[5] == split_path("std.math.divide".spec_bytes()));
    assert(k[6] == split_path("std.vars.value".spec_bytes()));
    let v0 = vec![("exec", Var::Execution(false))];
    assert(shape_entries(v0@) =~= seq![("exec".spec_bytes(), VarView::Pulse(false))]);
    let e0: Vec<(&str, Var)> = vec![];
    assert(shape_entries(e0@) =~= Seq::<(Seq<u8>, VarView)>::empty());
    if add_basic(reg, "std.print", v0, e0).is_err() {
        return Err(RegistrationConflict { name: GlobalName::from_path("std.print") });
    }
    let ghost r1 = reg@;
    let v1 = vec![("flag", Var::Bool(false))];
    let w1 = vec![("if", Var::Execution(false)), ("else", Var::Execution(false))];
    assert(shape_entries(v1@) =~= seq![("flag".spec_bytes(), VarView::Bool(false))]);
    assert(shape_entries(w1@) =~= seq![("if".spec_bytes(), VarView::Pulse(false)), ("else".spec_bytes(), VarView::Pulse(false))]);
    if add_basic(reg, "std.control.if", v1, w1).is_err() {
        assert(k[0] != k[1]);
        return Err(RegistrationConflict { name: GlobalName::from_path("std.control.if") });
    }
    let ghost r2 = reg@;
    let v2 = vec![("a", Var::Num(0)), ("b", Var::Num(0))];
    let w2 = vec![("c", Var::Num(0))];
    assert(shape_entries(v2@) =~= arith_inputs());
    assert(shape_entries(w2@) =~= arith_outputs());
    if add_basic(reg, "std.math.add", v2, w2).is_err() {
        assert(k[0] != k[2] && k[1] != k[2]);
        return Err(RegistrationConflict { name: GlobalName::from_path("std.math.add") });
    }
    let ghost r3 = reg@;
    let v3 = vec![("a", Var::Num(0)), ("b", Var::Num(0))];
    let w3 = vec![("c", Var::Num(0))];
    assert(shape_entries(v3@) =~= arith_inputs());
    assert(shape_entries(w3@) =~= arith_outputs());
    if add_basic(reg, "std.math.subtract", v3, w3).is_err() {
        assert(k[0] != k[3] && k[1] != k[3] && k[2] != k[3]);
        return Err(RegistrationConflict { name: GlobalName::from_path("std.math.subtract") });
    }
    let ghost r4 = reg@;
    let v4 = vec![("a", Var::Num(0)), ("b", Var::Num(0))];
    let w4 = vec![("c", Var::Num(0))];
    assert(shape_entries(v4@) =~= arith_inputs());
    assert(shape_entries(w4@) =~= arith_outputs());
    if add_basic(reg, "std.math.multiply", v4, w4).is_err() {
        assert(k[0] != k[4] && k[1] != k[4] && k[2] != k[4] && k[3] != k[4]);
        return Err(RegistrationConflict { name: GlobalName::from_path("std.math.multiply") });
    }
    let ghost r5 = reg@;
    let v5 = vec![("a", Var::Num(0)), ("b", Var::Num(0))];
    let w5 = vec![("c", Var::Num(0))];
    assert(shape_entries(v5@) =~= arith_inputs());
    assert(shape_entries(w5@) =~= arith_outputs());
    if add_basic(reg, "std.math.divide", v5, w5).is_err() {
        assert(k[0] != k[5] && k[1] != k[5] && k[2] != k[5] && k[3] != k[5] && k[4] != k[5]);
        return Err(RegistrationConflict { name: GlobalName::from_path("std.math.divide") });
    }
    let ghost r6 = reg@;
    let v6 = vec![("value", Var::String(String::new()))];
    let w6 = vec![("var", Var::Null)];
    assert(shape_entries(v6@) =~= seq![("value".spec_bytes(), VarView::Text(Seq::empty()))]);
    assert(shape_entries(w6@) =~= seq![("var".spec_bytes(), VarView::Null)]);
    if add_basic(reg, "std.vars.value", v6, w6).is_err() {
        assert(k[0] != k[6] && k[1] != k[6] && k[2] != k[6] && k[3] != k[6] && k[4] != k[6] && k[5] != k[6]);
        return Err(RegistrationConflict { name: GlobalName::from_path("std.vars.value") });
    }
    assert(k[0] != k[1] && k[0] != k[2] && k[0] != k[3] && k[0] != k[4] && k[0] != k[5] && k[0] != k[6]);
    assert(k[1] != k[2] && k[1] != k[3] && k[1] != k[4] && k[1] != k[5] && k[1] != k[6]);
    assert(k[2] != k[3] && k[2] != k[4] && k[2] != k[5] && k[2] != k[6]);
    assert(k[3] != k[4] && k[3] != k[5] && k[3] != k[6]);
    assert(k[4] != k[5] && k[4] != k[6] && k[5] != k[6]);
    assert(reg@.dom() =~= r0.dom() + k.to_set()) by {
        assert forall|x| k.to_set().contains(x) implies reg@.dom().contains(x) by {
            let i = choose|i: int| 0 <= i < k.len() && k[i] == x;
        }
        assert forall|x| #[trigger] reg@.dom().contains(x) && !r0.dom().contains(x) implies k.to_set().contains(x) by {
            if x == k[0] { assert(k[0] == k[0]); } else if x == k[1] { assert(k[1] == k[1]); }
            else if x == k[2] { assert(k[2] == k[2]); } else if x == k[3] { assert(k[3] == k[3]); }
            else if x == k[4] { assert(k[4] == k[4]); } else if x == k[5] { assert(k[5] == k[5]); }
            else { assert(k[6] == k[6]); }
        }
    }
    Ok(())
}

} // verus!
