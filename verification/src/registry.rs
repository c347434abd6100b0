//! What extensions register: functions, virtual table modules, and the tables of table valued
//! functions.

use vstd::prelude::*;
use std::sync::Arc;
use vstd::hash_map::StringHashMap;
use crate::value::ResultCode;

verus! {

/// The number of arguments of a function that takes any number of them.
pub const ANY_ARGC: i32 = -1;

/// A name as it comes from an extension.
#[derive(Clone, Debug)]
pub enum CName {
    /// There is no name at all.
    Null,
    /// The name is not UTF-8 text.
    NotText,
    Text(String),
}

/// How a virtual table module is used.
#[derive(Clone, Copy, Debug, PartialEq, Eq, Structural)]
pub enum VTabKind {
    VirtualTable,
    TableValuedFunction,
}

/// A registered virtual table module.
#[derive(Clone)]
pub struct VTabImpl<M> {
    pub module_kind: VTabKind,
    pub implementation: Arc<M>,
}

/// How a registered function is run, with the addresses of what an extension handed over.
#[derive(Clone, Copy, Debug, PartialEq, Eq, Structural)]
pub enum FuncBody {
    Scalar { deterministic: bool, callback: usize },
    /// Its callback also gets the connection.
    ScalarWithCtx { deterministic: bool, callback: usize },
    Aggregate {
        init: usize,
        step: usize,
        finalize: usize,
        aggregate_destructor: Option<usize>,
    },
}

/// A registered function.
#[derive(Clone, Copy, Debug, PartialEq, Eq, Structural)]
pub struct ExternalFunc {
    /// How many arguments it takes, or [`ANY_ARGC`].
    pub argc: i32,
    pub body: FuncBody,
    pub context: usize,
    pub context_destructor: Option<usize>,
    pub value_destructor: Option<usize>,
}

/// What extensions register into: the symbols of a connection or of a database, and the tables of
/// its schema.
#[verifier::reject_recursive_types(M)]
#[verifier::reject_recursive_types(T)]
pub struct ExtensionCtx<M, T> {
    pub functions: StringHashMap<ExternalFunc>,
    pub vtab_modules: StringHashMap<VTabImpl<M>>,
    pub tables: StringHashMap<T>,
    /// Goes up with each registration, so that prepared statements know that they need to be
    /// prepared again. The symbols of a database have none.
    pub prepare_context_generation: Option<u64>,
}

/// The model of what extensions register into.
#[verifier::ext_equal]
pub struct CtxView<M, T> {
    pub functions: Map<Seq<char>, ExternalFunc>,
    pub vtab_modules: Map<Seq<char>, (VTabKind, M)>,
    pub tables: Map<Seq<char>, T>,
    pub generation: Option<u64>,
}

impl<M, T> View for ExtensionCtx<M, T> {
    type V = CtxView<M, T>;

    open spec fn view(&self) -> CtxView<M, T> {
        CtxView {
            functions: self.functions@,
            vtab_modules: self.vtab_modules@.map_values(
                |v: VTabImpl<M>| (v.module_kind, *v.implementation),
            ),
            tables: self.tables@,
            generation: self.prepare_context_generation,
        }
    }
}

/// The generation that follows; the one behind the highest is 0.
pub open spec fn bumped(generation: Option<u64>) -> Option<u64> {
    match generation {
        Some(g) => Some(
            if g == u64::MAX {
                0
            } else {
                (g + 1) as u64
            },
        ),
        None => None,
    }
}

impl<M, T> CtxView<M, T> {
    /// After registering a function.
    pub open spec fn with_function(self, name: Seq<char>, func: ExternalFunc) -> CtxView<M, T> {
        CtxView {
            functions: self.functions.insert(name, func),
            generation: bumped(self.generation),
            ..self
        }
    }

    /// After taking a function away.
    pub open spec fn without_function(self, name: Seq<char>) -> CtxView<M, T> {
        CtxView {
            functions: self.functions.remove(name),
            generation: bumped(self.generation),
            ..self
        }
    }

    /// After registering a module.
    pub open spec fn with_module(self, name: Seq<char>, kind: VTabKind, module: M) -> CtxView<M, T> {
        CtxView {
            vtab_modules: self.vtab_modules.insert(name, (kind, module)),
            generation: bumped(self.generation),
            ..self
        }
    }

    /// Registering a function under `name`: the name must be there and be text, and the number of
    /// arguments must not be below -1.
    pub open spec fn registering(self, name: CName, func: ExternalFunc) -> (CtxView<M, T>, ResultCode) {
        match name {
            CName::Text(text) => if func.argc < -1 {
                (self, ResultCode::InvalidArgs)
            } else {
                (self.with_function(text@, func), ResultCode::OK)
            },
            _ => (self, ResultCode::InvalidArgs),
        }
    }

    /// Taking the function under `name` away.
    pub open spec fn unregistering(self, name: CName) -> (CtxView<M, T>, ResultCode) {
        match name {
            CName::Text(text) => if self.functions.contains_key(text@) {
                (self.without_function(text@), ResultCode::OK)
            } else {
                (self, ResultCode::NotFound)
            },
            _ => (self, ResultCode::InvalidArgs),
        }
    }
}

/// A function that was registered can be taken away again. What other names stand for is as it was
/// before, and the name itself stands for nothing.
pub proof fn lemma_register_then_unregister<M, T>(
    ctx: CtxView<M, T>,
    name: CName,
    func: ExternalFunc,
)
    requires
        ctx.registering(name, func).1 == ResultCode::OK,
    ensures
        ({
            let (registered, _) = ctx.registering(name, func);
            let (after, code) = registered.unregistering(name);
            &&& code == ResultCode::OK
            &&& name matches CName::Text(text) && after.functions == ctx.functions.remove(text@)
            &&& after.vtab_modules == ctx.vtab_modules
            &&& after.tables == ctx.tables
            &&& after.unregistering(name).1 == ResultCode::NotFound
        }),
{
    if let CName::Text(text) = name {
        assert(ctx.functions.insert(text@, func).remove(text@) =~= ctx.functions.remove(text@));
    }
}

/// A registration that succeeds is noticed: where there is a generation it changes. One that is
/// refused leaves everything as it was.
pub proof fn lemma_registration_is_noticed<M, T>(
    ctx: CtxView<M, T>,
    name: CName,
    func: ExternalFunc,
)
    ensures
        ctx.registering(name, func).1 == ResultCode::OK ==> (ctx.generation is Some
            ==> ctx.registering(name, func).0.generation != ctx.generation),
        ctx.registering(name, func).1 != ResultCode::OK ==> ctx.registering(name, func).0 == ctx,
        ctx.unregistering(name).1 == ResultCode::OK ==> (ctx.generation is Some
            ==> ctx.unregistering(name).0.generation != ctx.generation),
        ctx.unregistering(name).1 != ResultCode::OK ==> ctx.unregistering(name).0 == ctx,
{
}

/// How far registering a virtual table module came.
#[derive(Clone, Copy, Debug, PartialEq, Eq, Structural)]
pub enum ModuleRegistration {
    Done(ResultCode),
    /// The module is a table valued function: its table has to be built and published.
    NeedsTable,
}

/// What extensions register into, with nothing registered yet.
pub fn new_extension_ctx<M, T>(generation: Option<u64>) -> (r: ExtensionCtx<M, T>)
    ensures
        r@.functions == Map::<Seq<char>, ExternalFunc>::empty(),
        r@.vtab_modules == Map::<Seq<char>, (VTabKind, M)>::empty(),
        r@.tables == Map::<Seq<char>, T>::empty(),
        r@.generation == generation,
{
    ExtensionCtx {
        functions: StringHashMap::new(),
        vtab_modules: StringHashMap::new(),
        tables: StringHashMap::new(),
        prepare_context_generation: generation,
    }
}

/// Counts the generation up.
pub(crate) fn bump<M, T>(ctx: &mut ExtensionCtx<M, T>)
    ensures
        final(ctx)@ == (CtxView { generation: bumped(old(ctx)@.generation), ..old(ctx)@ }),
{
    if let Some(g) = ctx.prepare_context_generation {
        ctx.prepare_context_generation = Some(g.wrapping_add(1));
    }
}

/// Registers a function under a name.
fn register<M, T>(ctx: Option<&mut ExtensionCtx<M, T>>, name: CName, func: ExternalFunc) -> (r:
    ResultCode)
    ensures
        match ctx {
            Some(c) => (final(c)@, r) == c@.registering(name, func),
            None => r == ResultCode::InvalidArgs,
        },
{
    match ctx {
        None => ResultCode::InvalidArgs,
        Some(c) => {
            if func.argc < -1 {
                return ResultCode::InvalidArgs;
            }
            match name {
                CName::Text(text) => {
                    c.functions.insert(text, func);
                    bump(c);
                    ResultCode::OK
                },
                _ => ResultCode::InvalidArgs,
            }
        },
    }
}

/// Registers a scalar function of any number of arguments.
pub fn register_scalar_function<M, T>(
    ctx: Option<&mut ExtensionCtx<M, T>>,
    name: CName,
    func: usize,
) -> (r: ResultCode)
    ensures
        match ctx {
            Some(c) => (final(c)@, r) == c@.registering(
                name,
                ExternalFunc {
                    argc: ANY_ARGC,
                    body: FuncBody::Scalar { deterministic: false, callback: func },
                    context: 0,
                    context_destructor: None,
                    value_destructor: None,
                },
            ),
            None => r == ResultCode::InvalidArgs,
        },
{
    register_scalar_function_with_options(ctx, name, ANY_ARGC, false, 0, func, None, None)
}

/// Registers a scalar function. The name comes in its normal form.
pub fn register_scalar_function_with_options<M, T>(
    ctx: Option<&mut ExtensionCtx<M, T>>,
    name: CName,
    argc: i32,
    deterministic: bool,
    context: usize,
    callback: usize,
    context_destructor: Option<usize>,
    value_destructor: Option<usize>,
) -> (r: ResultCode)
    ensures
        match ctx {
            Some(c) => (final(c)@, r) == c@.registering(
                name,
                ExternalFunc {
                    argc,
                    body: FuncBody::Scalar { deterministic, callback },
                    context,
                    context_destructor,
                    value_destructor,
                },
            ),
            None => r == ResultCode::InvalidArgs,
        },
{
    register(
        ctx,
        name,
        ExternalFunc {
            argc,
            body: FuncBody::Scalar { deterministic, callback },
            context,
            context_destructor,
            value_destructor,
        },
    )
}

/// Registers a scalar function whose callback also gets the connection. The connection is not known
/// yet: it is the one that the function is called on. The name comes in its normal form.
pub fn register_scalar_function_with_ctx<M, T>(
    ctx: Option<&mut ExtensionCtx<M, T>>,
    name: CName,
    argc: i32,
    deterministic: bool,
    context: usize,
    callback: usize,
    context_destructor: Option<usize>,
    value_destructor: Option<usize>,
) -> (r: ResultCode)
    ensures
        match ctx {
            Some(c) => (final(c)@, r) == c@.registering(
                name,
                ExternalFunc {
                    argc,
                    body: FuncBody::ScalarWithCtx { deterministic, callback },
                    context,
                    context_destructor,
                    value_destructor,
                },
            ),
            None => r == ResultCode::InvalidArgs,
        },
{
    register(
        ctx,
        name,
        ExternalFunc {
            argc,
            body: FuncBody::ScalarWithCtx { deterministic, callback },
            context,
            context_destructor,
            value_destructor,
        },
    )
}

/// Registers an aggregate function. The name comes in its normal form.
pub fn register_aggregate_function<M, T>(
    ctx: Option<&mut ExtensionCtx<M, T>>,
    name: CName,
    args: i32,
    context: usize,
    init_func: usize,
    step_func: usize,
    finalize_func: usize,
    context_destructor: Option<usize>,
    aggregate_destructor: Option<usize>,
    value_destructor: Option<usize>,
) -> (r: ResultCode)
    ensures
        match ctx {
            Some(c) => (final(c)@, r) == c@.registering(
                name,
                ExternalFunc {
                    argc: args,
                    body: FuncBody::Aggregate {
                        init: init_func,
                        step: step_func,
                        finalize: finalize_func,
                        aggregate_destructor,
                    },
                    context,
                    context_destructor,
                    value_destructor,
                },
            ),
            None => r == ResultCode::InvalidArgs,
        },
{
    register(
        ctx,
        name,
        ExternalFunc {
            argc: args,
            body: FuncBody::Aggregate {
                init: init_func,
                step: step_func,
                finalize: finalize_func,
                aggregate_destructor,
            },
            context,
            context_destructor,
            value_destructor,
        },
    )
}

/// Takes a function away. The name comes in its normal form.
pub fn unregister_function<M, T>(ctx: Option<&mut ExtensionCtx<M, T>>, name: CName) -> (r:
    ResultCode)
    ensures
        match ctx {
            Some(c) => (final(c)@, r) == c@.unregistering(name),
            None => r == ResultCode::InvalidArgs,
        },
{
    match ctx {
        None => ResultCode::InvalidArgs,
        Some(c) => match name {
            CName::Text(text) => {
                if !c.functions.contains_key(text.as_str()) {
                    return ResultCode::NotFound;
                }
                c.functions.remove(text.as_str());
                bump(c);
                ResultCode::OK
            },
            _ => ResultCode::InvalidArgs,
        },
    }
}

/// Registers a virtual table module. For a table valued function the table is still to be built
/// from the symbols as they are then, and to be handed to [`publish_table`].
pub fn register_vtab_module<M, T>(
    ctx: Option<&mut ExtensionCtx<M, T>>,
    name: CName,
    module: M,
    kind: VTabKind,
) -> (r: ModuleRegistration)
    ensures
        match ctx {
            Some(c) => match name {
                CName::Text(text) => {
                    &&& final(c)@ == c@.with_module(text@, kind, module)
                    &&& r == if kind == VTabKind::TableValuedFunction {
                        ModuleRegistration::NeedsTable
                    } else {
                        ModuleRegistration::Done(ResultCode::OK)
                    }
                },
                _ => final(c)@ == c@ && r == ModuleRegistration::Done(ResultCode::Error),
            },
            None => r == ModuleRegistration::Done(ResultCode::Error),
        },
{
    match ctx {
        None => ModuleRegistration::Done(ResultCode::Error),
        Some(c) => match name {
            CName::Text(text) => {
                let ghost before = c@.vtab_modules;
                let vmodule = VTabImpl { module_kind: kind, implementation: Arc::new(module) };
                c.vtab_modules.insert(text, vmodule);
                assert(c@.vtab_modules =~= before.insert(text@, (kind, module)));
                bump(c);
                if kind == VTabKind::TableValuedFunction {
                    ModuleRegistration::NeedsTable
                } else {
                    ModuleRegistration::Done(ResultCode::OK)
                }
            },
            _ => ModuleRegistration::Done(ResultCode::Error),
        },
    }
}

/// Puts the table of a table valued function into the schema, if it could be built.
pub fn publish_table<M, T>(ctx: &mut ExtensionCtx<M, T>, name: String, built: Option<T>) -> (r:
    ResultCode)
    ensures
        match built {
            Some(table) => r == ResultCode::OK && final(ctx)@ == (CtxView {
                tables: old(ctx)@.tables.insert(name@, table),
                ..old(ctx)@
            }),
            None => r == ResultCode::Error && final(ctx)@ == old(ctx)@,
        },
{
    match built {
        Some(table) => {
            ctx.tables.insert(name, table);
            ResultCode::OK
        },
        None => ResultCode::Error,
    }
}

} // verus!
