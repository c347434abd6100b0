//! What registering functions, modules and geometry callbacks changes, and what a database brings
//! along.

use vstd::prelude::*;
use crate::callbacks;
use crate::callbacks::GeometryCallback;
use crate::database;
use crate::database::{BuiltinExtension, Features, IndexMethod, IoKind};
use crate::layout_laws;
use crate::layout_laws::lowest_first;
use crate::registry;
use crate::registry::{CName, CtxView, ExternalFunc, FuncBody, VTabKind};
use crate::value::{ResultCode, ValueView};

verus! {

/// The generation is one higher than before, and 0 behind the highest one. Where there is none, there
/// stays none.
pub open spec fn goes_up(before: Option<u64>, after: Option<u64>) -> bool {
    match (before, after) {
        (Some(g), Some(h)) => h == g + 1 || (g == 0xffff_ffff_ffff_ffff && h == 0),
        (None, None) => true,
        _ => false,
    }
}

/// A function is registered if and only if its name is text and its number of arguments is -1 or
/// more. It is then found under its name as it was handed over, every other name stands for what it
/// stood for, modules and tables are as they were, and the generation goes up. Otherwise nothing
/// changes.
pub proof fn lemma_registering<M, T>(
    ctx: CtxView<M, T>,
    name: CName,
    func: ExternalFunc,
    other: Seq<char>,
)
    ensures
        ({
            let (after, code) = ctx.registering(name, func);
            if name is Text && func.argc >= -1 {
                let text = name->Text_0@;
                &&& code == ResultCode::OK
                &&& after.functions.contains_key(text)
                &&& after.functions[text] == func
                &&& other != text ==> after.functions.contains_key(other)
                    == ctx.functions.contains_key(other) && (ctx.functions.contains_key(other)
                    ==> after.functions[other] == ctx.functions[other])
                &&& after.vtab_modules == ctx.vtab_modules
                &&& after.tables == ctx.tables
                &&& goes_up(ctx.generation, after.generation)
            } else {
                code == ResultCode::InvalidArgs && after == ctx
            }
        }),
        registry::ANY_ARGC == -1,
{
}

/// A function is taken away if and only if one is registered under the name.
pub proof fn lemma_unregistering<M, T>(ctx: CtxView<M, T>, name: CName, other: Seq<char>)
    ensures
        ({
            let (after, code) = ctx.unregistering(name);
            &&& !(name is Text) ==> code == ResultCode::InvalidArgs && after == ctx
            &&& name is Text && !ctx.functions.contains_key(name->Text_0@) ==> code
                == ResultCode::NotFound && after == ctx
            &&& name is Text && ctx.functions.contains_key(name->Text_0@) ==> {
                &&& code == ResultCode::OK
                &&& !after.functions.contains_key(name->Text_0@)
                &&& other != name->Text_0@ ==> after.functions.contains_key(other)
                    == ctx.functions.contains_key(other) && (ctx.functions.contains_key(other)
                    ==> after.functions[other] == ctx.functions[other])
                &&& after.vtab_modules == ctx.vtab_modules
                &&& after.tables == ctx.tables
                &&& goes_up(ctx.generation, after.generation)
            }
        }),
{
}

/// A module is found under its name with its kind, and nothing else changes but the generation.
pub proof fn lemma_module_registered<M, T>(
    ctx: CtxView<M, T>,
    name: Seq<char>,
    kind: VTabKind,
    module: M,
    other: Seq<char>,
)
    ensures
        ({
            let after = ctx.with_module(name, kind, module);
            &&& after.vtab_modules.contains_key(name)
            &&& after.vtab_modules[name] == (kind, module)
            &&& other != name ==> after.vtab_modules.contains_key(other)
                == ctx.vtab_modules.contains_key(other) && (ctx.vtab_modules.contains_key(other)
                ==> after.vtab_modules[other] == ctx.vtab_modules[other])
            &&& after.functions == ctx.functions
            &&& after.tables == ctx.tables
            &&& goes_up(ctx.generation, after.generation)
        }),
{
}

/// The function of a geometry callback takes any number of arguments, is not deterministic, gets the
/// connection, and carries the context of the user.
pub proof fn lemma_geometry_function(user_context: usize, shim: usize)
    ensures
        ({
            let f = callbacks::geometry_function(user_context, shim);
            &&& f.argc == -1
            &&& f.body == (FuncBody::ScalarWithCtx { deterministic: false, callback: shim })
            &&& f.context == user_context
            &&& f.context_destructor is None
            &&& f.value_destructor is None
        }),
{
}

/// A callback that is kept is the one of its connection and its name; those of other names and other
/// connections are as they were.
pub proof fn lemma_callback_kept(
    registry: Map<usize, Map<Seq<char>, GeometryCallback>>,
    conn: usize,
    name: Seq<char>,
    callback: GeometryCallback,
    other_conn: usize,
    other_name: Seq<char>,
)
    ensures
        ({
            let after = callbacks::with_callback(registry, conn, name, callback);
            &&& after.contains_key(conn)
            &&& after[conn].contains_key(name)
            &&& after[conn][name] == callback
            &&& other_conn != conn ==> after.contains_key(other_conn) == registry.contains_key(
                other_conn,
            ) && (registry.contains_key(other_conn) ==> after[other_conn] == registry[other_conn])
            &&& other_name != name && registry.contains_key(conn) ==> (
            after[conn].contains_key(other_name) == registry[conn].contains_key(other_name) && (
            registry[conn].contains_key(other_name) ==> after[conn][other_name]
                == registry[conn][other_name]))
            &&& other_name != name && !registry.contains_key(conn) ==> !after[conn].contains_key(
                other_name,
            )
        }),
{
}

/// Calling a geometry function gives NULL where there is no connection or it has no callback of that
/// name. Otherwise it gives a blob of 28 bytes and 8 for each argument: the size, the address of the
/// callback, the context, the number of arguments, and the bits of each argument that is a number or
/// 0, all of them with the lowest byte first.
#[verifier::rlimit(30)]
pub proof fn lemma_geometry_blob(
    registry: Map<usize, Map<Seq<char>, GeometryCallback>>,
    conn: Option<usize>,
    name: Seq<char>,
    args: Seq<Option<u64>>,
    i: int,
)
    requires
        28 + 8 * args.len() <= u32::MAX,
    ensures
        ({
            let v = callbacks::match_value(registry, conn, name, args);
            if conn is Some && registry.contains_key(conn->0) && registry[conn->0].contains_key(
                name,
            ) {
                let found = registry[conn->0][name];
                let blob = v->Blob_0;
                &&& v is Blob
                &&& blob.len() == 28 + 8 * args.len()
                &&& lowest_first(blob.subrange(0, 4)) == 28 + 8 * args.len()
                &&& lowest_first(blob.subrange(4, 12)) == found.geom_fn
                &&& lowest_first(blob.subrange(12, 20)) == found.user_context
                &&& lowest_first(blob.subrange(20, 28)) == args.len()
                &&& 0 <= i < args.len() ==> lowest_first(blob.subrange(28 + 8 * i, 36 + 8 * i)) == (
                match args[i] {
                    Some(bits) => bits,
                    None => 0,
                })
            } else {
                v == ValueView::Null
            }
        }),
{
    if conn is Some && registry.contains_key(conn->0) && registry[conn->0].contains_key(name) {
        let found = registry[conn->0][name];
        let params = callbacks::param_bits(args);
        let blob = callbacks::match_blob(found.geom_fn, found.user_context, params);
        callbacks::lemma_match_blob_reads_back(found.geom_fn, found.user_context, params, i);
        layout_laws::lemma_numbers_of_bytes(blob, 0);
        layout_laws::lemma_numbers_of_bytes(blob, 4);
        layout_laws::lemma_numbers_of_bytes(blob, 12);
        layout_laws::lemma_numbers_of_bytes(blob, 20);
        if 0 <= i < args.len() {
            layout_laws::lemma_numbers_of_bytes(blob, 28 + 8 * i);
        }
    }
}

proof fn lemma_module_from(modules: Seq<String>, name: Seq<char>, i: int)
    requires
        0 <= i <= modules.len(),
    ensures
        match database::module_from(modules, name, i) {
            Some(k) => i <= k < modules.len() && modules[k]@ == name && forall|j: int|
                i <= j < k ==> (#[trigger] modules[j])@ != name,
            None => forall|j: int| i <= j < modules.len() ==> (#[trigger] modules[j])@ != name,
        },
    decreases modules.len() - i,
{
    if i < modules.len() && modules[i]@ != name {
        lemma_module_from(modules, name, i + 1);
    }
}

/// A name for input and output that is built in, as far as the build has it.
pub open spec fn is_built_in(features: Features, vfs: Seq<char>) -> bool {
    ||| vfs == "memory"@
    ||| vfs == "syscall"@
    ||| vfs == "memory_yield"@ && features.io_memory_yield
    ||| vfs == "io_uring"@ && features.io_uring
    ||| vfs == "experimental_win_iocp"@ && features.experimental_win_iocp
}

/// What a name for input and output stands for: one that is built in, where this build has it, or else
/// the first registered module of that name. A name that is neither stands for nothing.
pub proof fn lemma_names_of_input_and_output(features: Features, modules: Seq<String>, vfs: Seq<char>)
    requires
        modules.len() <= usize::MAX,
    ensures
        vfs == "memory"@ ==> database::io_of(features, modules, vfs) == Some(IoKind::Memory),
        vfs == "syscall"@ ==> database::io_of(features, modules, vfs) == Some(IoKind::Syscall),
        vfs == "memory_yield"@ && features.io_memory_yield ==> database::io_of(
            features,
            modules,
            vfs,
        ) == Some(IoKind::MemoryYield),
        vfs == "io_uring"@ && features.io_uring ==> database::io_of(features, modules, vfs) == Some(
            IoKind::Uring,
        ),
        vfs == "experimental_win_iocp"@ && features.experimental_win_iocp ==> database::io_of(
            features,
            modules,
            vfs,
        ) == Some(IoKind::WindowsIocp),
        !is_built_in(features, vfs) ==> match database::io_of(features, modules, vfs) {
            Some(IoKind::Module(k)) => k < modules.len() && modules[k as int]@ == vfs && forall|
                j: int,
            |
                0 <= j < k ==> (#[trigger] modules[j])@ != vfs,
            Some(_) => false,
            None => forall|j: int| 0 <= j < modules.len() ==> (#[trigger] modules[j])@ != vfs,
        },
{
    reveal_strlit("memory");
    reveal_strlit("syscall");
    reveal_strlit("memory_yield");
    reveal_strlit("io_uring");
    reveal_strlit("experimental_win_iocp");
    assert("memory"@.len() == 6 && "syscall"@.len() == 7 && "memory_yield"@.len() == 12
        && "io_uring"@.len() == 8 && "experimental_win_iocp"@.len() == 21);
    lemma_module_from(modules, vfs, 0);
}

/// The features that an extension that comes with the database needs.
pub open spec fn comes_along(features: Features, e: BuiltinExtension) -> bool {
    match e {
        BuiltinExtension::Uuid => features.uuid,
        BuiltinExtension::Series => features.series,
        BuiltinExtension::Time => features.time,
        BuiltinExtension::Percentile => features.percentile,
        BuiltinExtension::Regexp => true,
        BuiltinExtension::Rtree => features.rtree,
        BuiltinExtension::Vfs => features.fs,
    }
}

/// Where an extension stands in the order of registration.
pub open spec fn turn(e: BuiltinExtension) -> int {
    match e {
        BuiltinExtension::Uuid => 0,
        BuiltinExtension::Series => 1,
        BuiltinExtension::Time => 2,
        BuiltinExtension::Percentile => 3,
        BuiltinExtension::Regexp => 4,
        BuiltinExtension::Rtree => 5,
        BuiltinExtension::Vfs => 6,
    }
}

/// A list of extensions in the order of registration, without any twice, made of those that are
/// asked for.
pub open spec fn is_in_turn(list: Seq<BuiltinExtension>) -> bool {
    forall|i: int, j: int|
        0 <= i < j < list.len() ==> turn(#[trigger] list[i]) < turn(#[trigger] list[j])
}

proof fn lemma_one_more_extension(
    list: Seq<BuiltinExtension>,
    condition: bool,
    value: BuiltinExtension,
    features: Features,
)
    requires
        is_in_turn(list),
        forall|i: int| 0 <= i < list.len() ==> turn(#[trigger] list[i]) < turn(value),
        forall|e: BuiltinExtension| #[trigger]
            list.contains(e) <==> comes_along(features, e) && turn(e) < turn(value),
        condition == comes_along(features, value),
    ensures
        ({
            let more = list + database::only_if(condition, value);
            &&& is_in_turn(more)
            &&& forall|i: int| 0 <= i < more.len() ==> turn(#[trigger] more[i]) < turn(value) + 1
            &&& forall|e: BuiltinExtension| #[trigger]
                more.contains(e) <==> comes_along(features, e) && turn(e) < turn(value) + 1
        }),
{
    let more = list + database::only_if(condition, value);
    assert forall|e: BuiltinExtension| #[trigger] more.contains(e) <==> comes_along(features, e)
        && turn(e) < turn(value) + 1 by {
        if list.contains(e) {
            assert(more[list.index_of(e)] == e);
        }
        if condition {
            assert(more[list.len() as int] == value);
        }
        if more.contains(e) && e != value {
            assert(list[more.index_of(e)] == e);
        }
        assert(turn(e) == turn(value) ==> e == value);
    }
}

/// A database brings along exactly the extensions that it was built with, and regular expressions
/// always, each once and in their order. Its index methods are two, and full text search where it was
/// built with it.
pub proof fn lemma_what_a_database_brings_along(features: Features)
    ensures
        is_in_turn(database::builtin_extensions(features)),
        forall|e: BuiltinExtension| #[trigger]
            database::builtin_extensions(features).contains(e) <==> comes_along(features, e),
        database::builtin_index_methods(features).len() == (if features.fts {
            3int
        } else {
            2
        }),
        database::builtin_index_methods(features)[0] == IndexMethod::VectorSparseInverted,
        database::builtin_index_methods(features)[1] == IndexMethod::BackingBtree,
        features.fts ==> database::builtin_index_methods(features)[2] == IndexMethod::Fts,
{
    let l0 = Seq::<BuiltinExtension>::empty();
    lemma_one_more_extension(l0, features.uuid, BuiltinExtension::Uuid, features);
    let l1 = l0 + database::only_if(features.uuid, BuiltinExtension::Uuid);
    lemma_one_more_extension(l1, features.series, BuiltinExtension::Series, features);
    let l2 = l1 + database::only_if(features.series, BuiltinExtension::Series);
    lemma_one_more_extension(l2, features.time, BuiltinExtension::Time, features);
    let l3 = l2 + database::only_if(features.time, BuiltinExtension::Time);
    lemma_one_more_extension(l3, features.percentile, BuiltinExtension::Percentile, features);
    let l4 = l3 + database::only_if(features.percentile, BuiltinExtension::Percentile);
    lemma_one_more_extension(l4, true, BuiltinExtension::Regexp, features);
    let l5 = l4 + database::only_if(true, BuiltinExtension::Regexp);
    lemma_one_more_extension(l5, features.rtree, BuiltinExtension::Rtree, features);
    let l6 = l5 + database::only_if(features.rtree, BuiltinExtension::Rtree);
    lemma_one_more_extension(l6, features.fs, BuiltinExtension::Vfs, features);
    let l7 = l6 + database::only_if(features.fs, BuiltinExtension::Vfs);
    assert(l7 =~= database::builtin_extensions(features));
}

} // verus!
