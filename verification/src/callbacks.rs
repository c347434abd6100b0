//! Geometry callbacks: where they are kept for each connection, and the blob that carries one into
//! a query.

use vstd::prelude::*;
use std::collections::HashMap;
use std::sync::Arc;
use vstd::hash_map::StringHashMap;
use crate::bytes;
use crate::registry;
use crate::registry::{CName, CtxView, ExtensionCtx, ExternalFunc, FuncBody};
use crate::value::{ResultCode, Value, ValueView};

verus! {

broadcast use vstd::std_specs::hash::group_hash_axioms;

/// A geometry callback: its address, and the context that its user wants handed to it.
#[derive(Clone, Copy, Debug, PartialEq, Eq, Structural)]
pub struct GeometryCallback {
    pub geom_fn: usize,
    pub user_context: usize,
}

/// The callbacks of each connection, by the connection's address and the function's name.
pub struct ConnectionRegistry {
    pub funcs: HashMap<usize, StringHashMap<GeometryCallback>>,
}

impl View for ConnectionRegistry {
    type V = Map<usize, Map<Seq<char>, GeometryCallback>>;

    open spec fn view(&self) -> Map<usize, Map<Seq<char>, GeometryCallback>> {
        self.funcs@.map_values(|m: StringHashMap<GeometryCallback>| m@)
    }
}

/// The callbacks of one connection.
pub open spec fn callbacks_of(
    registry: Map<usize, Map<Seq<char>, GeometryCallback>>,
    conn: usize,
) -> Map<Seq<char>, GeometryCallback> {
    if registry.contains_key(conn) {
        registry[conn]
    } else {
        Map::empty()
    }
}

/// The registry with one more callback of a connection.
pub open spec fn with_callback(
    registry: Map<usize, Map<Seq<char>, GeometryCallback>>,
    conn: usize,
    name: Seq<char>,
    callback: GeometryCallback,
) -> Map<usize, Map<Seq<char>, GeometryCallback>> {
    registry.insert(conn, callbacks_of(registry, conn).insert(name, callback))
}

/// The eight bytes of each number, one number after the other.
pub open spec fn le64_run(values: Seq<u64>) -> Seq<u8>
    decreases values.len(),
{
    if values.len() == 0 {
        Seq::empty()
    } else {
        le64_run(values.drop_last()) + bytes::le64_bytes(values.last())
    }
}

/// The blob of a callback and its parameters: its size, the callback's address, the user's context,
/// the number of parameters, and the bits of each parameter, all lowest byte first.
pub open spec fn match_blob(geom_fn: usize, user_context: usize, params: Seq<u64>) -> Seq<u8> {
    bytes::le32_bytes(((28 + 8 * params.len()) % 0x1_0000_0000) as u32) + bytes::le64_bytes(
        geom_fn as u64,
    ) + bytes::le64_bytes(user_context as u64) + bytes::le64_bytes(params.len() as u64) + le64_run(
        params,
    )
}

/// The parameters of a call: the bits of each argument that is a number, 0 for any other.
pub open spec fn param_bits(args: Seq<Option<u64>>) -> Seq<u64> {
    Seq::new(
        args.len(),
        |i: int|
            match args[i] {
                Some(bits) => bits,
                None => 0,
            },
    )
}

/// What calling a geometry function gives: the blob of its callback, or NULL without a connection
/// or a callback.
pub open spec fn match_value(
    registry: Map<usize, Map<Seq<char>, GeometryCallback>>,
    conn: Option<usize>,
    name: Seq<char>,
    args: Seq<Option<u64>>,
) -> ValueView {
    match conn {
        Some(c) => if callbacks_of(registry, c).contains_key(name) {
            let found = callbacks_of(registry, c)[name];
            ValueView::Blob(match_blob(found.geom_fn, found.user_context, param_bits(args)))
        } else {
            ValueView::Null
        },
        None => ValueView::Null,
    }
}

/// The function that a geometry callback is registered as.
pub open spec fn geometry_function(user_context: usize, shim: usize) -> ExternalFunc {
    ExternalFunc {
        argc: registry::ANY_ARGC,
        body: FuncBody::ScalarWithCtx { deterministic: false, callback: shim },
        context: user_context,
        context_destructor: None,
        value_destructor: None,
    }
}

impl ConnectionRegistry {
    pub fn new() -> (r: ConnectionRegistry)
        ensures
            r@ == Map::<usize, Map<Seq<char>, GeometryCallback>>::empty(),
    {
        let r = ConnectionRegistry { funcs: HashMap::new() };
        assert(r@ =~= Map::<usize, Map<Seq<char>, GeometryCallback>>::empty());
        r
    }

    /// Keeps a callback of a connection.
    fn insert(&mut self, conn: usize, name: String, callback: GeometryCallback)
        ensures
            final(self)@ == with_callback(old(self)@, conn, name@, callback),
    {
        let mut conn_funcs: StringHashMap<GeometryCallback> = match self.funcs.remove(&conn) {
            Some(m) => m,
            None => StringHashMap::new(),
        };
        assert(conn_funcs@ == callbacks_of(old(self)@, conn));
        conn_funcs.insert(name, callback);
        self.funcs.insert(conn, conn_funcs);
        assert(self@ =~= with_callback(old(self)@, conn, name@, callback));
    }

    /// The callback of a connection under a name.
    fn lookup(&self, conn: usize, name: &str) -> (r: Option<GeometryCallback>)
        ensures
            match r {
                Some(found) => callbacks_of(self@, conn).contains_key(name@) && found == callbacks_of(
                    self@,
                    conn,
                )[name@],
                None => !callbacks_of(self@, conn).contains_key(name@),
            },
    {
        match self.funcs.get(&conn) {
            Some(m) => match m.get(name) {
                Some(found) => Some(*found),
                None => None,
            },
            None => None,
        }
    }
}

/// Forgets all callbacks of a connection; called when the connection is closed.
pub fn unregister_connection_functions(registry: &mut ConnectionRegistry, conn: usize)
    ensures
        final(registry)@ == old(registry)@.remove(conn),
{
    registry.funcs.remove(&conn);
    assert(registry@ =~= old(registry)@.remove(conn));
}

/// Registers a geometry callback on the current connection: keeps it under its name, which comes in
/// its normal form, and registers `shim` as the function of that name.
pub fn rtree_geometry_callback<M, T>(
    ctx: Option<&mut ExtensionCtx<M, T>>,
    registry: &mut ConnectionRegistry,
    current: Option<usize>,
    name: CName,
    geom_fn: usize,
    user_context: usize,
    shim: usize,
) -> (r: ResultCode)
    ensures
        match ctx {
            Some(c) => match name {
                CName::Text(text) => if current is Some && current->0 != 0 {
                    &&& r == ResultCode::OK
                    &&& final(registry)@ == with_callback(
                        old(registry)@,
                        current->0,
                        text@,
                        (GeometryCallback { geom_fn, user_context }),
                    )
                    &&& final(c)@ == (CtxView {
                        functions: c@.functions.insert(text@, geometry_function(user_context, shim)),
                        generation: registry::bumped(c@.generation),
                        ..c@
                    })
                } else {
                    r == ResultCode::Error && final(registry)@ == old(registry)@ && final(c)@ == c@
                },
                _ => r == ResultCode::Error && final(registry)@ == old(registry)@ && final(c)@ == c@,
            },
            None => r == ResultCode::Error && final(registry)@ == old(registry)@,
        },
{
    let c = match ctx {
        Some(c) => c,
        None => {
            return ResultCode::Error;
        },
    };
    let text: String = match name {
        CName::Text(text) => text,
        _ => {
            return ResultCode::Error;
        },
    };
    let conn: usize = match current {
        Some(conn) => conn,
        None => 0,
    };
    if conn == 0 {
        return ResultCode::Error;
    }
    registry.insert(conn, text.clone(), GeometryCallback { geom_fn, user_context });
    c.functions.insert(
        text,
        ExternalFunc {
            argc: registry::ANY_ARGC,
            body: FuncBody::ScalarWithCtx { deterministic: false, callback: shim },
            context: user_context,
            context_destructor: None,
            value_destructor: None,
        },
    );
    registry::bump(c);
    ResultCode::OK
}

/// Appends the eight bytes of a number.
fn push_le64(blob: &mut Vec<u8>, value: u64)
    ensures
        final(blob)@ == old(blob)@ + bytes::le64_bytes(value),
{
    let n: usize = blob.len();
    let mut k: usize = 0;
    while k < 8
        invariant
            n == old(blob).len(),
            k <= 8,
            blob.len() == n + k,
            blob@.take(n as int) == old(blob)@,
        decreases 8 - k,
    {
        blob.push(0);
        assert(blob@.take(n as int) =~= old(blob)@);
        k = k + 1;
    }
    bytes::write_le64(blob, n, value);
    assert(blob@ =~= old(blob)@ + bytes::le64_bytes(value)) by {
        assert(blob@.take(n as int) =~= old(blob)@);
    }
}

/// The blob of a callback with the parameters of a call.
fn build_match_blob(geom_fn: usize, user_context: usize, args: &Vec<Option<u64>>) -> (r: Vec<u8>)
    ensures
        r@ == match_blob(geom_fn, user_context, param_bits(args@)),
{
    let ghost params = param_bits(args@);
    let size: u32 = ((28 + 8 * (args.len() as u128)) % 0x1_0000_0000) as u32;
    let mut blob: Vec<u8> = Vec::new();
    blob.push(0);
    blob.push(0);
    blob.push(0);
    blob.push(0);
    bytes::write_le32(&mut blob, 0, size);
    assert(blob@ =~= bytes::le32_bytes(size));
    push_le64(&mut blob, geom_fn as u64);
    push_le64(&mut blob, user_context as u64);
    push_le64(&mut blob, args.len() as u64);
    let ghost head = blob@;
    let mut i: usize = 0;
    assert(params.take(0) =~= Seq::empty());
    assert(blob@ =~= head + le64_run(params.take(0)));
    while i < args.len()
        invariant
            params == param_bits(args@),
            i <= args.len(),
            blob@ == head + le64_run(params.take(i as int)),
        decreases args.len() - i,
    {
        let bits: u64 = match args[i] {
            Some(bits) => bits,
            None => 0,
        };
        assert(params.take(i + 1).drop_last() =~= params.take(i as int));
        assert(params.take(i + 1).last() == bits);
        push_le64(&mut blob, bits);
        i = i + 1;
        assert(blob@ =~= head + le64_run(params.take(i as int)));
    }
    assert(params.take(args.len() as int) =~= params);
    blob
}

/// What calling the geometry function `name` gives on the current connection. `args` are the bits
/// of the arguments that are numbers.
pub fn geometry_match(
    registry: &ConnectionRegistry,
    current: Option<usize>,
    name: &str,
    args: &Vec<Option<u64>>,
) -> (r: Value)
    ensures
        r@ == match_value(registry@, current, name@, args@),
{
    let conn: usize = match current {
        Some(conn) => conn,
        None => {
            return Value::Null;
        },
    };
    match registry.lookup(conn, name) {
        Some(found) => Value::Blob(build_match_blob(found.geom_fn, found.user_context, args)),
        None => Value::Null,
    }
}

/// The connection that the functions of a thread are called on.
pub struct CurrentConn<C> {
    pub conn: Option<Arc<C>>,
}

/// Makes `conn` the connection that functions are called on. This is done before each call.
pub fn set_current_conn_ctx<C>(slot: &mut CurrentConn<C>, conn: Arc<C>)
    ensures
        final(slot).conn == Some(conn),
{
    slot.conn = Some(conn);
}

/// Leaves no connection that functions are called on.
pub fn clear_current_conn_ctx<C>(slot: &mut CurrentConn<C>)
    ensures
        final(slot).conn is None,
{
    slot.conn = None;
}

/// The connection that functions are called on.
pub fn get_current_conn_ctx<C>(slot: &CurrentConn<C>) -> (r: Option<Arc<C>>)
    ensures
        r == slot.conn,
{
    match &slot.conn {
        Some(conn) => Some(conn.clone()),
        None => None,
    }
}

/// What was registered is what a call finds: behind a registration the blob carries the callback's
/// address and the whole context.
pub proof fn lemma_registered_callback_is_found(
    registry: Map<usize, Map<Seq<char>, GeometryCallback>>,
    conn: usize,
    name: Seq<char>,
    geom_fn: usize,
    user_context: usize,
    args: Seq<Option<u64>>,
)
    ensures
        match_value(
            with_callback(registry, conn, name, (GeometryCallback { geom_fn, user_context })),
            Some(conn),
            name,
            args,
        ) == ValueView::Blob(match_blob(geom_fn, user_context, param_bits(args))),
{
}

/// Closing a connection takes its callbacks away and leaves those of the others.
pub proof fn lemma_closed_connection_has_no_callbacks(
    registry: Map<usize, Map<Seq<char>, GeometryCallback>>,
    conn: usize,
    other: usize,
    name: Seq<char>,
    args: Seq<Option<u64>>,
)
    ensures
        match_value(registry.remove(conn), Some(conn), name, args) == ValueView::Null,
        other != conn ==> match_value(registry.remove(conn), Some(other), name, args)
            == match_value(registry, Some(other), name, args),
{
}

/// Each number of a run stands at its place.
proof fn lemma_run_at(values: Seq<u64>, i: int)
    requires
        0 <= i < values.len(),
    ensures
        le64_run(values).len() == 8 * values.len(),
        le64_run(values).subrange(8 * i, 8 * i + 8) == bytes::le64_bytes(values[i]),
    decreases values.len(),
{
    lemma_run_len(values);
    lemma_run_len(values.drop_last());
    let before = le64_run(values.drop_last());
    if i < values.len() - 1 {
        lemma_run_at(values.drop_last(), i);
        assert(le64_run(values).subrange(8 * i, 8 * i + 8) =~= before.subrange(8 * i, 8 * i + 8));
    } else {
        assert(le64_run(values).subrange(8 * i, 8 * i + 8) =~= bytes::le64_bytes(values[i]));
    }
}

proof fn lemma_run_len(values: Seq<u64>)
    ensures
        le64_run(values).len() == 8 * values.len(),
    decreases values.len(),
{
    if values.len() > 0 {
        lemma_run_len(values.drop_last());
    }
}

/// Every part of a blob can be read back from its place. The size is the blob's length as long as
/// it fits into the four bytes.
#[verifier::rlimit(60)]
pub proof fn lemma_match_blob_reads_back(
    geom_fn: usize,
    user_context: usize,
    params: Seq<u64>,
    i: int,
)
    requires
        28 + 8 * params.len() <= u32::MAX,
    ensures
        match_blob(geom_fn, user_context, params).len() == 28 + 8 * params.len(),
        bytes::le32_at(match_blob(geom_fn, user_context, params), 0) == 28 + 8 * params.len(),
        bytes::le64_at(match_blob(geom_fn, user_context, params), 4) == geom_fn,
        bytes::le64_at(match_blob(geom_fn, user_context, params), 12) == user_context,
        bytes::le64_at(match_blob(geom_fn, user_context, params), 20) == params.len(),
        0 <= i < params.len() ==> bytes::le64_at(
            match_blob(geom_fn, user_context, params),
            28 + 8 * i,
        ) == params[i],
{
    let blob = match_blob(geom_fn, user_context, params);
    let size = (28 + 8 * params.len()) as u32;
    lemma_run_len(params);
    assert forall|k: int| 0 <= k < 4 implies blob[0 + k] == #[trigger] bytes::le32_bytes(
        size,
    )[k] by {}
    bytes::lemma_le32_round_trip(blob, 0, size);
    assert forall|k: int| 0 <= k < 8 implies blob[4 + k] == #[trigger] bytes::le64_bytes(
        geom_fn as u64,
    )[k] by {}
    bytes::lemma_le64_round_trip(blob, 4, geom_fn as u64);
    assert forall|k: int| 0 <= k < 8 implies blob[12 + k] == #[trigger] bytes::le64_bytes(
        user_context as u64,
    )[k] by {}
    bytes::lemma_le64_round_trip(blob, 12, user_context as u64);
    assert forall|k: int| 0 <= k < 8 implies blob[20 + k] == #[trigger] bytes::le64_bytes(
        params.len() as u64,
    )[k] by {}
    bytes::lemma_le64_round_trip(blob, 20, params.len() as u64);
    if 0 <= i < params.len() {
        lemma_run_at(params, i);
        assert forall|k: int| 0 <= k < 8 implies blob[28 + 8 * i + k] == #[trigger] bytes::le64_bytes(
            params[i],
        )[k] by {
            assert(le64_run(params).subrange(8 * i, 8 * i + 8)[k] == le64_run(params)[8 * i + k]);
        }
        bytes::lemma_le64_round_trip(blob, 28 + 8 * i, params[i]);
    }
}

} // verus!
