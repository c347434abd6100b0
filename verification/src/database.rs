//! What a database decides when it is opened: where its bytes live, and which extensions it brings
//! along.

use vstd::prelude::*;

verus! {

/// What this build of the database was made with.
#[derive(Clone, Copy, Debug, PartialEq, Eq, Structural)]
pub struct Features {
    pub io_memory_yield: bool,
    /// On Linux, with its ring interface.
    pub io_uring: bool,
    /// On Windows, with its completion ports.
    pub experimental_win_iocp: bool,
    pub fts: bool,
    pub uuid: bool,
    pub series: bool,
    pub time: bool,
    pub percentile: bool,
    pub rtree: bool,
    pub fs: bool,
}

/// Why a database could not be opened.
#[derive(Clone, Debug)]
pub enum LimboError {
    InvalidArgument(String),
}

/// The input and output that a database is opened with.
#[derive(Clone, Copy, Debug, PartialEq, Eq, Structural)]
pub enum IoKind {
    Memory,
    MemoryYield,
    Syscall,
    Uring,
    WindowsIocp,
    /// The registered module with this number.
    Module(usize),
}

/// An index method that every database has.
#[derive(Clone, Copy, Debug, PartialEq, Eq, Structural)]
pub enum IndexMethod {
    VectorSparseInverted,
    BackingBtree,
    Fts,
}

/// An extension that comes with the database.
#[derive(Clone, Copy, Debug, PartialEq, Eq, Structural)]
pub enum BuiltinExtension {
    Uuid,
    Series,
    Time,
    Percentile,
    Regexp,
    Rtree,
    /// The modules for input and output that come with the database.
    Vfs,
}

/// A database, as far as opening another one by the name of a module goes.
#[derive(Clone, Debug)]
pub struct Database {
    pub features: Features,
    /// The names of the registered modules for input and output, in the order of their
    /// registration.
    pub vfs_modules: Vec<String>,
}

/// The first module of the given name at or behind `i`.
pub open spec fn module_from(modules: Seq<String>, name: Seq<char>, i: int) -> Option<int>
    decreases modules.len() - i,
{
    if i < 0 || i >= modules.len() {
        None
    } else if modules[i]@ == name {
        Some(i)
    } else {
        module_from(modules, name, i + 1)
    }
}

/// What the name of a module for input and output stands for.
pub open spec fn io_of(features: Features, modules: Seq<String>, vfs: Seq<char>) -> Option<IoKind> {
    if vfs == "memory"@ {
        Some(IoKind::Memory)
    } else if features.io_memory_yield && vfs == "memory_yield"@ {
        Some(IoKind::MemoryYield)
    } else if vfs == "syscall"@ {
        Some(IoKind::Syscall)
    } else if features.io_uring && vfs == "io_uring"@ {
        Some(IoKind::Uring)
    } else if features.experimental_win_iocp && vfs == "experimental_win_iocp"@ {
        Some(IoKind::WindowsIocp)
    } else {
        match module_from(modules, vfs, 0) {
            Some(i) => Some(IoKind::Module(i as usize)),
            None => None,
        }
    }
}

/// The value on its own if the condition holds, nothing otherwise.
pub open spec fn only_if<A>(condition: bool, value: A) -> Seq<A> {
    if condition {
        seq![value]
    } else {
        Seq::empty()
    }
}

/// The index methods that a database has from the start.
pub open spec fn builtin_index_methods(features: Features) -> Seq<IndexMethod> {
    seq![IndexMethod::VectorSparseInverted, IndexMethod::BackingBtree] + only_if(
        features.fts,
        IndexMethod::Fts,
    )
}

/// The extensions that a database brings along, in the order in which they are registered.
pub open spec fn builtin_extensions(features: Features) -> Seq<BuiltinExtension> {
    only_if(features.uuid, BuiltinExtension::Uuid) + only_if(
        features.series,
        BuiltinExtension::Series,
    ) + only_if(features.time, BuiltinExtension::Time) + only_if(
        features.percentile,
        BuiltinExtension::Percentile,
    ) + seq![BuiltinExtension::Regexp] + only_if(features.rtree, BuiltinExtension::Rtree) + only_if(
        features.fs,
        BuiltinExtension::Vfs,
    )
}

/// Appends the value if the condition holds.
fn push_if(list: &mut Vec<BuiltinExtension>, condition: bool, value: BuiltinExtension)
    ensures
        final(list)@ == old(list)@ + only_if(condition, value),
{
    if condition {
        list.push(value);
    }
    assert(list@ =~= old(list)@ + only_if(condition, value));
}

/// Whether two texts are the same.
fn same_text(a: &str, b: &str) -> (r: bool)
    ensures
        r == (a@ == b@),
{
    let n: usize = a.unicode_len();
    if n != b.unicode_len() {
        return false;
    }
    let mut i: usize = 0;
    while i < n
        invariant
            n == a@.len(),
            n == b@.len(),
            i <= n,
            a@.take(i as int) == b@.take(i as int),
        decreases n - i,
    {
        if a.get_char(i) != b.get_char(i) {
            assert(a@[i as int] != b@[i as int]);
            return false;
        }
        assert(a@.take(i + 1) =~= a@.take(i as int).push(a@[i as int]));
        assert(b@.take(i + 1) =~= b@.take(i as int).push(b@[i as int]));
        i = i + 1;
    }
    assert(a@.take(n as int) =~= a@);
    assert(b@.take(n as int) =~= b@);
    true
}

impl Database {
    /// Opens the database at `path` with the input and output that `vfs` names: gives what to open
    /// it with, and the path to open.
    pub fn open_with_vfs(&self, path: &str, vfs: &str) -> (r: Result<(IoKind, String), LimboError>)
        ensures
            match io_of(self.features, self.vfs_modules@, vfs@) {
                Some(io) => r matches Ok((kind, file)) && kind == io && file@ == path@,
                None => r matches Err(LimboError::InvalidArgument(message)) && message@
                    == "no such VFS: "@ + vfs@,
            },
    {
        let io: IoKind = if same_text(vfs, "memory") {
            IoKind::Memory
        } else if self.features.io_memory_yield && same_text(vfs, "memory_yield") {
            IoKind::MemoryYield
        } else if same_text(vfs, "syscall") {
            IoKind::Syscall
        } else if self.features.io_uring && same_text(vfs, "io_uring") {
            IoKind::Uring
        } else if self.features.experimental_win_iocp && same_text(vfs, "experimental_win_iocp") {
            IoKind::WindowsIocp
        } else {
            match self.find_vfs_module(vfs) {
                Some(i) => IoKind::Module(i),
                None => {
                    let mut message: String = "no such VFS: ".to_owned();
                    message.append(vfs);
                    return Err(LimboError::InvalidArgument(message));
                },
            }
        };
        Ok((io, path.to_owned()))
    }

    /// The number of the first registered module of this name.
    fn find_vfs_module(&self, name: &str) -> (r: Option<usize>)
        ensures
            match r {
                Some(i) => module_from(self.vfs_modules@, name@, 0) == Some(i as int),
                None => module_from(self.vfs_modules@, name@, 0) is None,
            },
    {
        let mut i: usize = 0;
        while i < self.vfs_modules.len()
            invariant
                i <= self.vfs_modules.len(),
                module_from(self.vfs_modules@, name@, 0) == module_from(
                    self.vfs_modules@,
                    name@,
                    i as int,
                ),
            decreases self.vfs_modules.len() - i,
        {
            if same_text(self.vfs_modules[i].as_str(), name) {
                return Some(i);
            }
            i = i + 1;
        }
        None
    }

    /// Registers the built-in extensions that are stored on the database, so that a connection can
    /// just extend its symbol table: gives the index methods to enter, and the extensions to
    /// register in their order.
    pub fn register_global_builtin_extensions(&self) -> (r: (
        Vec<IndexMethod>,
        Vec<BuiltinExtension>,
    ))
        ensures
            r.0@ == builtin_index_methods(self.features),
            r.1@ == builtin_extensions(self.features),
    {
        let mut methods: Vec<IndexMethod> = Vec::new();
        methods.push(IndexMethod::VectorSparseInverted);
        methods.push(IndexMethod::BackingBtree);
        if self.features.fts {
            methods.push(IndexMethod::Fts);
        }
        assert(methods@ =~= builtin_index_methods(self.features));
        let mut extensions: Vec<BuiltinExtension> = Vec::new();
        push_if(&mut extensions, self.features.uuid, BuiltinExtension::Uuid);
        push_if(&mut extensions, self.features.series, BuiltinExtension::Series);
        push_if(&mut extensions, self.features.time, BuiltinExtension::Time);
        push_if(&mut extensions, self.features.percentile, BuiltinExtension::Percentile);
        extensions.push(BuiltinExtension::Regexp);
        push_if(&mut extensions, self.features.rtree, BuiltinExtension::Rtree);
        push_if(&mut extensions, self.features.fs, BuiltinExtension::Vfs);
        assert(extensions@ =~= builtin_extensions(self.features));
        (methods, extensions)
    }
}

} // verus!
