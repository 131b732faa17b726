//! The Python-side membrane: what is run once in each Python instance before user code.
use vstd::prelude::*;

verus! {

/// The script that replaces dangerous attributes of the `js` proxy by proxies that refuse
/// every use. It does its work in a function, so that its names do not leak into `globals()`,
/// leaves one sentinel behind, and raises where it could not do its work. It holds no host
/// names: the network policy is kept where Python cannot reach it.
pub const PREAMBLE: &'static str = "import builtins as _wasmsh_builtins
if not getattr(_wasmsh_builtins, 'WASMSH_MEMBRANE_INSTALLED', False):
    def _wasmsh_install_membrane():
        try:
            import js as _js
        except Exception:
            return False
        # Pyodide refuses to auto-coerce a bare Python class instance to a
        # JS property and raises TypeError; the assignment must be wrapped
        # with `pyodide.ffi.create_proxy`. If the wrapper itself is
        # unavailable (non-Pyodide host, very old version) fall back to the
        # raw instance and let the `except` swallow the inevitable
        # TypeError so we don't false-positive a non-Pyodide environment.
        try:
            from pyodide.ffi import create_proxy as _wasmsh_create_proxy
        except ImportError:
            _wasmsh_create_proxy = None
        class _WasmshDeny:
            def __init__(self, name):
                object.__setattr__(self, '_name', name)
            def __getattr__(self, attr):
                raise PermissionError(
                    'wasmsh: js.' + object.__getattribute__(self, '_name')
                    + '.' + attr + ' is blocked in the sandbox'
                )
            def __setattr__(self, attr, value):
                raise PermissionError(
                    'wasmsh: setting js.' + object.__getattribute__(self, '_name')
                    + '.' + attr + ' is blocked'
                )
            def __call__(self, *args, **kwargs):
                raise PermissionError(
                    'wasmsh: js.' + object.__getattribute__(self, '_name')
                    + '() is blocked'
                )
        installed = 0
        for _denied in (
            'process', 'require', 'Deno', 'WebSocket', 'fs',
            'child_process', 'worker_threads', 'subprocess', 'cluster',
            'crypto',
        ):
            try:
                _target = _WasmshDeny(_denied)
                if _wasmsh_create_proxy is not None:
                    _target = _wasmsh_create_proxy(_target)
                setattr(_js, _denied, _target)
                installed += 1
            except Exception:
                pass
        # Be permissive on the install summary: if `js` was importable we
        # are in a Pyodide context and the membrane is good enough to
        # signal \"installed\" even when individual attrs couldn't be
        # shadowed (e.g. non-writable globals, missing attrs). The JS-side
        # fetch membrane is the primary defence; the Python deny-proxies
        # are defence-in-depth. Failing the entire install just because
        # one attr resisted would refuse every user `python3` invocation
        # — which is what the e2e suite caught against real Pyodide.
        return True
    _wasmsh_membrane_ok = _wasmsh_install_membrane()
    del _wasmsh_install_membrane
    if not _wasmsh_membrane_ok:
        raise RuntimeError('wasmsh: js attribute membrane install failed')
    _wasmsh_builtins.WASMSH_MEMBRANE_INSTALLED = True
";

/// What is known of the membrane of one Python instance.
pub struct Membrane {
    /// The hosts that the session may reach.
    pub allowed_hosts: Vec<String>,
    /// The hosts for which the preamble was last started.
    pub installed_for_hosts: Vec<String>,
    /// Whether the preamble has run for the current hosts.
    pub installed: bool,
}

/// What has to happen before user code may run.
pub enum InstallStep {
    /// The membrane is in place.
    Ready,
    /// This script has to be run; what it returned goes to `finish_install`.
    Run(String),
}

/// The preamble, which is the same for every list of hosts.
pub fn build_preamble(allowed_hosts: &[String]) -> (r: String)
    ensures
        r@ == PREAMBLE@,
{
    PREAMBLE.to_owned()
}

/// Takes over a new list of hosts. The preamble has to run again.
pub fn set_allowed_hosts(membrane: &mut Membrane, hosts: Vec<String>)
    ensures
        final(membrane).allowed_hosts == hosts,
        final(membrane).installed_for_hosts == old(membrane).installed_for_hosts,
        !final(membrane).installed,
{
    membrane.allowed_hosts = hosts;
    membrane.installed = false;
}

/// Why the membrane is not in place.
pub enum MembraneError {
    /// The preamble was run and failed.
    ExecutionFailed,
}

impl MembraneError {
    /// The message for the error.
    pub fn message(&self) -> (r: String)
        ensures
            r@ == "membrane preamble execution failed"@,
    {
        "membrane preamble execution failed".to_owned()
    }
}

impl Membrane {
    /// The membrane of a fresh Python instance.
    pub fn new() -> (r: Membrane)
        ensures
            r.allowed_hosts@.len() == 0,
            r.installed_for_hosts@.len() == 0,
            !r.installed,
    {
        Membrane { allowed_hosts: Vec::new(), installed_for_hosts: Vec::new(), installed: false }
    }

    /// Starts an installation: nothing is to be done where the membrane is in place, else the
    /// preamble is to be run for the current hosts.
    pub fn ensure_installed(&mut self) -> (r: InstallStep)
        ensures
            match r {
                InstallStep::Ready => old(self).installed && *final(self) == *old(self),
                InstallStep::Run(script) => !old(self).installed && script@ == PREAMBLE@
                    && !final(self).installed && crate::views::strs(
                    final(self).installed_for_hosts@,
                ) == crate::views::strs(old(self).allowed_hosts@),
            },
            final(self).allowed_hosts == old(self).allowed_hosts,
    {
        if self.installed {
            return InstallStep::Ready;
        }
        self.installed_for_hosts = crate::text::clone_strings(&self.allowed_hosts);
        let script = build_preamble(self.allowed_hosts.as_slice());
        InstallStep::Run(script)
    }

    /// Takes note of what running the preamble returned: zero installs the membrane, anything
    /// else leaves it to be tried again.
    pub fn finish_install(&mut self, rc: i32) -> (r: Result<(), MembraneError>)
        ensures
            r is Ok <==> rc == 0,
            final(self).installed == (rc == 0 || old(self).installed),
            final(self).allowed_hosts == old(self).allowed_hosts,
            final(self).installed_for_hosts == old(self).installed_for_hosts,
    {
        if rc != 0 {
            return Err(MembraneError::ExecutionFailed);
        }
        self.installed = true;
        Ok(())
    }
}

/// The preamble holds no NUL, so that it can be handed over as a C string.
pub proof fn law_preamble_holds_no_nul()
    ensures
        !PREAMBLE@.contains('\0'),
{
    reveal_strlit("import builtins as _wasmsh_builtins
if not getattr(_wasmsh_builtins, 'WASMSH_MEMBRANE_INSTALLED', False):
    def _wasmsh_install_membrane():
        try:
            import js as _js
        except Exception:
            return False
        # Pyodide refuses to auto-coerce a bare Python class instance to a
        # JS property and raises TypeError; the assignment must be wrapped
        # with `pyodide.ffi.create_proxy`. If the wrapper itself is
        # unavailable (non-Pyodide host, very old version) fall back to the
        # raw instance and let the `except` swallow the inevitable
        # TypeError so we don't false-positive a non-Pyodide environment.
        try:
            from pyodide.ffi import create_proxy as _wasmsh_create_proxy
        except ImportError:
            _wasmsh_create_proxy = None
        class _WasmshDeny:
            def __init__(self, name):
                object.__setattr__(self, '_name', name)
            def __getattr__(self, attr):
                raise PermissionError(
                    'wasmsh: js.' + object.__getattribute__(self, '_name')
                    + '.' + attr + ' is blocked in the sandbox'
                )
            def __setattr__(self, attr, value):
                raise PermissionError(
                    'wasmsh: setting js.' + object.__getattribute__(self, '_name')
                    + '.' + attr + ' is blocked'
                )
            def __call__(self, *args, **kwargs):
                raise PermissionError(
                    'wasmsh: js.' + object.__getattribute__(self, '_name')
                    + '() is blocked'
                )
        installed = 0
        for _denied in (
            'process', 'require', 'Deno', 'WebSocket', 'fs',
            'child_process', 'worker_threads', 'subprocess', 'cluster',
            'crypto',
        ):
            try:
                _target = _WasmshDeny(_denied)
                if _wasmsh_create_proxy is not None:
                    _target = _wasmsh_create_proxy(_target)
                setattr(_js, _denied, _target)
                installed += 1
            except Exception:
                pass
        # Be permissive on the install summary: if `js` was importable we
        # are in a Pyodide context and the membrane is good enough to
        # signal \"installed\" even when individual attrs couldn't be
        # shadowed (e.g. non-writable globals, missing attrs). The JS-side
        # fetch membrane is the primary defence; the Python deny-proxies
        # are defence-in-depth. Failing the entire install just because
        # one attr resisted would refuse every user `python3` invocation
        # — which is what the e2e suite caught against real Pyodide.
        return True
    _wasmsh_membrane_ok = _wasmsh_install_membrane()
    del _wasmsh_install_membrane
    if not _wasmsh_membrane_ok:
        raise RuntimeError('wasmsh: js attribute membrane install failed')
    _wasmsh_builtins.WASMSH_MEMBRANE_INSTALLED = True
");
    assert(forall|i: int| 0 <= i < PREAMBLE@.len() ==> PREAMBLE@[i] != '\0');
}

} // verus!
