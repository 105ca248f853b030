//! The script-isolation helper's text building: the temporary package's
//! module name, the call-descriptor payload handed to the serialisation
//! helper, the prelude a worker executes, and the loader's pre-import
//! code.  Writing the files and running the interpreter happen outside the
//! verified library.

use vstd::prelude::*;

use crate::codec::{append_quoted, quoted};
use crate::imports::ImportSet;

verus! {

/// The JSON call descriptor for one isolated execution: the module path to
/// import, the entry-point name (also as its qualified name), and no
/// arguments.
pub open spec fn payload_repr(import_path: Seq<char>, func_name: Seq<char>) -> Seq<char> {
    "{\"func_import_path\":"@ + quoted(import_path) + ",\"func_name\":"@ + quoted(func_name)
        + ",\"func_qualname\":"@ + quoted(func_name) + ",\"args\":null}"@
}

/// The fresh package directory's name: a fixed prefix and the hex of a
/// newly minted UUID, so it is a valid module name.
pub fn module_dir_name(uuid_hex: &String) -> (r: String)
    ensures
        r@ == "pymodule"@ + uuid_hex@,
{
    String::from_str("pymodule").concat(uuid_hex.as_str())
}

/// The import path of the script inside its package: `<dir>.script`, for a
/// script stored as `script.py`.
pub fn module_import_path(module_dir: &String) -> (r: String)
    ensures
        r@ == module_dir@ + ".script"@,
{
    module_dir.clone().concat(".script")
}

/// Builds the call descriptor for `import_path` and `func_name`.
pub fn isolation_payload(import_path: &String, func_name: &String) -> (r: String)
    ensures
        r@ == payload_repr(import_path@, func_name@),
{
    let mut out = String::new();
    out.append("{\"func_import_path\":");
    append_quoted(&mut out, import_path.as_str());
    out.append(",\"func_name\":");
    append_quoted(&mut out, func_name.as_str());
    out.append(",\"func_qualname\":");
    append_quoted(&mut out, func_name.as_str());
    out.append(",\"args\":null}");
    assert(out@ =~= payload_repr(import_path@, func_name@));
    out
}

/// The prelude a worker executes: bind the serialised payload to
/// `pickled_str`, then run the worker entry script.
pub open spec fn prelude_repr(pickled: Seq<char>, entry_script: Seq<char>) -> Seq<char> {
    "pickled_str = \""@ + pickled + "\"\n"@ + entry_script
}

/// Builds the worker prelude from the serialised payload and the worker
/// entry script's text.
pub fn exec_prelude(pickled: &String, entry_script: &String) -> (r: String)
    ensures
        r@ == prelude_repr(pickled@, entry_script@),
{
    let mut out = String::new();
    out.append("pickled_str = \"");
    out.append(pickled.as_str());
    out.append("\"\n");
    out.append(entry_script.as_str());
    assert(out@ =~= prelude_repr(pickled@, entry_script@));
    out
}

/// One pre-import line of the loader's bootstrap code.
pub open spec fn import_line_of(m: Seq<char>) -> Seq<char> {
    "__import__('"@ + m + "')\n"@
}

/// The loader's bootstrap code: one `__import__` line per module, in the
/// set's stored order.
pub open spec fn import_lines_of(ms: Seq<String>) -> Seq<char>
    decreases ms.len(),
{
    if ms.len() == 0 {
        Seq::empty()
    } else {
        import_lines_of(ms.drop_last()) + import_line_of(ms.last()@)
    }
}

/// Builds the loader's pre-import code for an effective import set.
pub fn build_import_lines(modules: &ImportSet) -> (r: String)
    ensures
        r@ == import_lines_of(modules.modules@),
{
    let mut out = String::new();
    let n = modules.modules.len();
    for i in 0..n
        invariant
            n == modules.modules@.len(),
            out@ == import_lines_of(modules.modules@.take(i as int)),
    {
        proof {
            assert(modules.modules@.take(i + 1).drop_last() =~= modules.modules@.take(i as int));
            assert(modules.modules@.take(i + 1).last() == modules.modules@[i as int]);
        }
        out.append("__import__('");
        out.append(modules.modules[i].as_str());
        out.append("')\n");
        assert(out@ =~= import_lines_of(modules.modules@.take(i + 1)));
    }
    assert(modules.modules@.take(n as int) =~= modules.modules@);
    out
}

} // verus!
