use limbo_rtree::callbacks::{
    clear_current_conn_ctx, geometry_match, get_current_conn_ctx, rtree_geometry_callback,
    set_current_conn_ctx, unregister_connection_functions, ConnectionRegistry, CurrentConn,
};
use limbo_rtree::database::{
    BuiltinExtension, Database, Features, IndexMethod, IoKind, LimboError,
};
use limbo_rtree::functions::{AggFunc, ScalarFunc};
use limbo_rtree::registry::{
    new_extension_ctx, publish_table, register_aggregate_function, register_scalar_function,
    register_scalar_function_with_ctx, register_scalar_function_with_options,
    register_vtab_module, unregister_function, CName, ExtensionCtx, FuncBody,
    ModuleRegistration, VTabKind,
};
use limbo_rtree::value::{ResultCode, Value};
use std::sync::Arc;

type Ctx = ExtensionCtx<u32, String>;

fn text(s: &str) -> CName {
    CName::Text(s.to_string())
}

#[test]
fn scalar_functions_come_and_go() {
    let mut ctx: Ctx = new_extension_ctx(Some(7));
    assert_eq!(register_scalar_function(Some(&mut ctx), text("f"), 99), ResultCode::OK);
    assert_eq!(ctx.prepare_context_generation, Some(8));
    let f = ctx.functions.get("f").unwrap();
    assert_eq!(f.argc, -1);
    assert_eq!(f.body, FuncBody::Scalar { deterministic: false, callback: 99 });
    assert_eq!(f.context, 0);
    assert_eq!(unregister_function(Some(&mut ctx), text("f")), ResultCode::OK);
    assert_eq!(ctx.prepare_context_generation, Some(9));
    assert!(ctx.functions.get("f").is_none());
    assert_eq!(unregister_function(Some(&mut ctx), text("f")), ResultCode::NotFound);
    assert_eq!(ctx.prepare_context_generation, Some(9));
}

#[test]
fn refused_registrations() {
    let mut ctx: Ctx = new_extension_ctx(Some(0));
    let code = register_scalar_function_with_options(
        Some(&mut ctx),
        text("f"),
        -2,
        true,
        1,
        2,
        None,
        None,
    );
    assert_eq!(code, ResultCode::InvalidArgs);
    assert_eq!(register_scalar_function(Some(&mut ctx), CName::Null, 1), ResultCode::InvalidArgs);
    assert_eq!(
        register_scalar_function(Some(&mut ctx), CName::NotText, 1),
        ResultCode::InvalidArgs
    );
    let none: Option<&mut Ctx> = None;
    assert_eq!(register_scalar_function(none, text("f"), 1), ResultCode::InvalidArgs);
    let none: Option<&mut Ctx> = None;
    assert_eq!(unregister_function(none, text("f")), ResultCode::InvalidArgs);
    assert_eq!(unregister_function(Some(&mut ctx), CName::NotText), ResultCode::InvalidArgs);
    assert_eq!(ctx.prepare_context_generation, Some(0));
    assert!(ctx.functions.is_empty());
}

#[test]
fn functions_keep_what_they_were_registered_with() {
    let mut ctx: Ctx = new_extension_ctx(None);
    register_scalar_function_with_options(
        Some(&mut ctx),
        text("s"),
        2,
        true,
        10,
        11,
        Some(12),
        Some(13),
    );
    register_scalar_function_with_ctx(Some(&mut ctx), text("c"), 3, false, 20, 21, None, Some(23));
    let code = register_aggregate_function(
        Some(&mut ctx),
        text("a"),
        1,
        30,
        31,
        32,
        33,
        Some(34),
        Some(35),
        Some(36),
    );
    assert_eq!(code, ResultCode::OK);
    let s = ctx.functions.get("s").unwrap();
    assert_eq!(s.argc, 2);
    assert_eq!(s.body, FuncBody::Scalar { deterministic: true, callback: 11 });
    assert_eq!((s.context, s.context_destructor, s.value_destructor), (10, Some(12), Some(13)));
    let c = ctx.functions.get("c").unwrap();
    assert_eq!(c.body, FuncBody::ScalarWithCtx { deterministic: false, callback: 21 });
    assert_eq!(c.value_destructor, Some(23));
    let a = ctx.functions.get("a").unwrap();
    assert_eq!(
        a.body,
        FuncBody::Aggregate { init: 31, step: 32, finalize: 33, aggregate_destructor: Some(35) }
    );
    assert_eq!(a.argc, 1);
    assert_eq!(ctx.prepare_context_generation, None);
}

#[test]
fn the_generation_wraps() {
    let mut ctx: Ctx = new_extension_ctx(Some(u64::MAX));
    register_scalar_function(Some(&mut ctx), text("f"), 1);
    assert_eq!(ctx.prepare_context_generation, Some(0));
}

#[test]
fn modules_and_table_valued_functions() {
    let mut ctx: Ctx = new_extension_ctx(Some(1));
    assert_eq!(
        register_vtab_module(Some(&mut ctx), text("rtree"), 5, VTabKind::VirtualTable),
        ModuleRegistration::Done(ResultCode::OK)
    );
    assert_eq!(*ctx.vtab_modules.get("rtree").unwrap().implementation, 5);
    assert_eq!(
        register_vtab_module(Some(&mut ctx), text("series"), 6, VTabKind::TableValuedFunction),
        ModuleRegistration::NeedsTable
    );
    assert_eq!(ctx.prepare_context_generation, Some(3));
    assert_eq!(publish_table(&mut ctx, "series".to_string(), None), ResultCode::Error);
    assert!(ctx.tables.is_empty());
    assert_eq!(
        publish_table(&mut ctx, "series".to_string(), Some("table".to_string())),
        ResultCode::OK
    );
    assert_eq!(ctx.tables.get("series").unwrap(), "table");
    assert_eq!(
        register_vtab_module(Some(&mut ctx), CName::Null, 7, VTabKind::VirtualTable),
        ModuleRegistration::Done(ResultCode::Error)
    );
    let none: Option<&mut Ctx> = None;
    assert_eq!(
        register_vtab_module(none, text("x"), 7, VTabKind::VirtualTable),
        ModuleRegistration::Done(ResultCode::Error)
    );
}

#[test]
fn geometry_callbacks_belong_to_a_connection() {
    let mut ctx: Ctx = new_extension_ctx(Some(4));
    let mut reg = ConnectionRegistry::new();
    let args = vec![Some(1.5f64.to_bits()), None];
    let code = rtree_geometry_callback(
        Some(&mut ctx),
        &mut reg,
        Some(0x1000),
        text("circle"),
        0xabcdef,
        0x12,
        77,
    );
    assert_eq!(code, ResultCode::OK);
    let f = ctx.functions.get("circle").unwrap();
    assert_eq!(f.body, FuncBody::ScalarWithCtx { deterministic: false, callback: 77 });
    assert_eq!((f.argc, f.context), (-1, 0x12));
    assert_eq!(ctx.prepare_context_generation, Some(5));

    let mut expected: Vec<u8> = Vec::new();
    expected.extend_from_slice(&44u32.to_le_bytes());
    expected.extend_from_slice(&0xabcdefu64.to_le_bytes());
    expected.extend_from_slice(&0x12u64.to_le_bytes());
    expected.extend_from_slice(&2u64.to_le_bytes());
    expected.extend_from_slice(&1.5f64.to_le_bytes());
    expected.extend_from_slice(&0.0f64.to_le_bytes());
    match geometry_match(&reg, Some(0x1000), "circle", &args) {
        Value::Blob(blob) => assert_eq!(blob, expected),
        _ => panic!("no blob"),
    }
    assert!(matches!(geometry_match(&reg, Some(0x2000), "circle", &args), Value::Null));
    assert!(matches!(geometry_match(&reg, Some(0x1000), "square", &args), Value::Null));
    assert!(matches!(geometry_match(&reg, None, "circle", &args), Value::Null));

    unregister_connection_functions(&mut reg, 0x2000);
    assert!(matches!(geometry_match(&reg, Some(0x1000), "circle", &args), Value::Blob(_)));
    unregister_connection_functions(&mut reg, 0x1000);
    assert!(matches!(geometry_match(&reg, Some(0x1000), "circle", &args), Value::Null));
}

#[test]
fn geometry_callbacks_that_are_refused() {
    let mut ctx: Ctx = new_extension_ctx(None);
    let mut reg = ConnectionRegistry::new();
    let none: Option<&mut Ctx> = None;
    assert_eq!(
        rtree_geometry_callback(none, &mut reg, Some(1), text("f"), 1, 1, 1),
        ResultCode::Error
    );
    assert_eq!(
        rtree_geometry_callback(Some(&mut ctx), &mut reg, Some(1), CName::NotText, 1, 1, 1),
        ResultCode::Error
    );
    assert_eq!(
        rtree_geometry_callback(Some(&mut ctx), &mut reg, None, text("f"), 1, 1, 1),
        ResultCode::Error
    );
    assert_eq!(
        rtree_geometry_callback(Some(&mut ctx), &mut reg, Some(0), text("f"), 1, 1, 1),
        ResultCode::Error
    );
    assert!(ctx.functions.is_empty());
}

#[test]
fn the_whole_context_is_kept() {
    let mut ctx: Ctx = new_extension_ctx(None);
    let mut reg = ConnectionRegistry::new();
    rtree_geometry_callback(Some(&mut ctx), &mut reg, Some(9), text("f"), 3, 0x1234_5678_9abc_def0, 1);
    match geometry_match(&reg, Some(9), "f", &vec![]) {
        Value::Blob(blob) => {
            assert_eq!(blob.len(), 28);
            assert_eq!(&blob[4..12], &3u64.to_le_bytes());
            assert_eq!(&blob[12..20], &0x1234_5678_9abc_def0u64.to_le_bytes());
        }
        _ => panic!("no blob"),
    }
}

#[test]
fn the_current_connection() {
    let mut slot: CurrentConn<u8> = CurrentConn { conn: None };
    assert!(get_current_conn_ctx(&slot).is_none());
    set_current_conn_ctx(&mut slot, Arc::new(5));
    assert_eq!(get_current_conn_ctx(&slot), Some(Arc::new(5)));
    clear_current_conn_ctx(&mut slot);
    assert!(get_current_conn_ctx(&slot).is_none());
}

fn features() -> Features {
    Features {
        io_memory_yield: false,
        io_uring: false,
        experimental_win_iocp: false,
        fts: false,
        uuid: false,
        series: false,
        time: false,
        percentile: false,
        rtree: false,
        fs: false,
    }
}

fn database(features: Features, modules: &[&str]) -> Database {
    Database { features, vfs_modules: modules.iter().map(|s| s.to_string()).collect() }
}

#[test]
fn opening_with_a_named_vfs() {
    let plain = database(features(), &["mine", "io_uring", "mine"]);
    let kind = |db: &Database, vfs: &str| db.open_with_vfs("a.db", vfs).map(|p| p.0);
    assert!(matches!(plain.open_with_vfs("a.db", "memory"), Ok((IoKind::Memory, p)) if p == "a.db"));
    assert!(matches!(kind(&plain, "syscall"), Ok(IoKind::Syscall)));
    assert!(matches!(kind(&plain, "mine"), Ok(IoKind::Module(0))));
    assert!(matches!(kind(&plain, "io_uring"), Ok(IoKind::Module(1))));
    match kind(&plain, "memory_yield") {
        Err(LimboError::InvalidArgument(message)) => {
            assert_eq!(message, "no such VFS: memory_yield")
        }
        _ => panic!("opened"),
    }
    let all = database(
        Features {
            io_memory_yield: true,
            io_uring: true,
            experimental_win_iocp: true,
            ..features()
        },
        &[],
    );
    assert!(matches!(kind(&all, "memory_yield"), Ok(IoKind::MemoryYield)));
    assert!(matches!(kind(&all, "io_uring"), Ok(IoKind::Uring)));
    assert!(matches!(kind(&all, "experimental_win_iocp"), Ok(IoKind::WindowsIocp)));
    assert!(kind(&all, "").is_err());
}

#[test]
fn builtin_extensions_by_feature() {
    let (methods, extensions) = database(features(), &[]).register_global_builtin_extensions();
    assert_eq!(methods, vec![IndexMethod::VectorSparseInverted, IndexMethod::BackingBtree]);
    assert_eq!(extensions, vec![BuiltinExtension::Regexp]);
    let all = Features {
        fts: true,
        uuid: true,
        series: true,
        time: true,
        percentile: true,
        rtree: true,
        fs: true,
        ..features()
    };
    let (methods, extensions) = database(all, &[]).register_global_builtin_extensions();
    assert_eq!(methods.len(), 3);
    assert_eq!(methods[2], IndexMethod::Fts);
    assert_eq!(
        extensions,
        vec![
            BuiltinExtension::Uuid,
            BuiltinExtension::Series,
            BuiltinExtension::Time,
            BuiltinExtension::Percentile,
            BuiltinExtension::Regexp,
            BuiltinExtension::Rtree,
            BuiltinExtension::Vfs,
        ]
    );
}

struct Count;

impl AggFunc for Count {
    type State = i64;
    type Error = String;
    const NAME: &'static str = "my_count";
    const ARGS: i32 = 1;

    fn step(state: &mut i64, args: &[Value]) {
        if !args.is_empty() {
            *state += 1;
        }
    }

    fn finalize(state: i64) -> Result<Value, String> {
        if state == 0 {
            return Err("no rows".to_string());
        }
        Ok(Value::Integer(state))
    }
}

struct Offset;

impl ScalarFunc for Offset {
    type State = i64;
    const NAME: &'static str = "offset_by";

    fn init() -> i64 {
        100
    }

    fn call(state: &i64, args: &[Value]) -> Value {
        match args.first() {
            Some(Value::Integer(i)) => Value::Integer(i + state),
            _ => Value::Null,
        }
    }
}

#[test]
fn functions_that_an_extension_implements() {
    let mut state = i64::default();
    Count::step(&mut state, &[Value::Null]);
    Count::step(&mut state, &[Value::Null]);
    assert!(matches!(Count::finalize(state), Ok(Value::Integer(2))));
    assert_eq!(Count::finalize(0).unwrap_err(), "no rows");
    assert_eq!(Count::NAME, "my_count");
    let state = Offset::init();
    assert!(matches!(Offset::call(&state, &[Value::Integer(5)]), Value::Integer(105)));
    assert!(Offset::ALIAS.is_none());
}
