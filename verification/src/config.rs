//! Configuration fragments: the mergeable contribution of one source
//! document — key bindings, option mutations, triggered actions and
//! module invocations — together with the fragment merge that
//! concatenates two fragments field by field, preserving arrival order.

use vstd::prelude::*;

use crate::algebra::{dup_entries, dup_strings, SetDirective};
use crate::condition::Condition;
use crate::lua::LuaConfig;

verus! {

/// One key binding resolved for the host: the mode, the full left-hand
/// side (leader included), the resolved right-hand side, and the flags
/// the host's mapping call takes.
#[derive(Debug, Clone, PartialEq)]
pub struct KeyBinding {
    pub mode: String,
    pub lhs: String,
    pub rhs: String,
    pub noremap: bool,
    pub silent: bool,
    pub unique: bool,
    pub expr: bool,
}

/// The mathematical shape of a resolved key binding.
pub struct KeyBindingView {
    pub mode: Seq<char>,
    pub lhs: Seq<char>,
    pub rhs: Seq<char>,
    pub noremap: bool,
    pub silent: bool,
    pub unique: bool,
    pub expr: bool,
}

impl View for KeyBinding {
    type V = KeyBindingView;

    open spec fn view(&self) -> KeyBindingView {
        KeyBindingView {
            mode: self.mode@,
            lhs: self.lhs@,
            rhs: self.rhs@,
            noremap: self.noremap,
            silent: self.silent,
            unique: self.unique,
            expr: self.expr,
        }
    }
}

impl DeepView for KeyBinding {
    type V = KeyBindingView;

    open spec fn deep_view(&self) -> KeyBindingView {
        self.view()
    }
}

/// A group of key bindings from one document: the modes they apply in,
/// the shared flags and leader prefix, and the mappings themselves.
#[derive(Debug)]
pub struct Keys {
    pub modes: Vec<String>,
    pub recursive: bool,
    pub command: bool,
    pub lua: bool,
    pub silent: bool,
    pub unique: bool,
    pub expression: bool,
    pub leader: String,
    pub mappings: Vec<(String, String)>,
}

/// The mathematical shape of a binding group.
pub struct KeysView {
    pub modes: Seq<Seq<char>>,
    pub recursive: bool,
    pub command: bool,
    pub lua: bool,
    pub silent: bool,
    pub unique: bool,
    pub expression: bool,
    pub leader: Seq<char>,
    pub mappings: Seq<(Seq<char>, Seq<char>)>,
}

impl View for Keys {
    type V = KeysView;

    open spec fn view(&self) -> KeysView {
        KeysView {
            modes: self.modes.deep_view(),
            recursive: self.recursive,
            command: self.command,
            lua: self.lua,
            silent: self.silent,
            unique: self.unique,
            expression: self.expression,
            leader: self.leader@,
            mappings: self.mappings.deep_view(),
        }
    }
}

impl DeepView for Keys {
    type V = KeysView;

    open spec fn deep_view(&self) -> KeysView {
        self.view()
    }
}

/// True when the text ends in a closing parenthesis.
pub open spec fn ends_paren(s: Seq<char>) -> bool {
    s.len() > 0 && s[s.len() - 1] == ')'
}

/// The right-hand side a mapping resolves to: a call of the named
/// function for a `lua` group (with `()` added unless the text already
/// ends in a call), a command invocation for a `command` group, and the
/// raw keys otherwise.
pub open spec fn rhs_text(lua: bool, command: bool, r: Seq<char>) -> Seq<char> {
    if lua {
        "<CMD>lua "@ + r + (if ends_paren(r) {
            Seq::<char>::empty()
        } else {
            seq!['(', ')']
        }) + "<CR>"@
    } else if command {
        "<CMD>"@ + r + "<CR>"@
    } else {
        r
    }
}

/// The binding one mapping resolves to in one mode.
pub open spec fn binding_of(k: KeysView, mode: Seq<char>, m: (Seq<char>, Seq<char>)) -> KeyBindingView {
    KeyBindingView {
        mode: mode,
        lhs: k.leader + m.0,
        rhs: rhs_text(k.lua, k.command, m.1),
        noremap: !k.recursive,
        silent: k.silent,
        unique: k.unique,
        expr: k.expression,
    }
}

/// The bindings of one mode, in mapping order.
pub open spec fn row_of(k: KeysView, mode: Seq<char>) -> Seq<KeyBindingView> {
    k.mappings.map_values(|m: (Seq<char>, Seq<char>)| binding_of(k, mode, m))
}

/// The bindings of the first `n_modes` modes, concatenated in mode
/// order.
pub open spec fn resolved_spec(k: KeysView, n_modes: int) -> Seq<KeyBindingView>
    decreases n_modes,
{
    if n_modes <= 0 || n_modes > k.modes.len() {
        Seq::empty()
    } else {
        resolved_spec(k, n_modes - 1) + row_of(k, k.modes[n_modes - 1])
    }
}

impl Keys {
    /// Resolves this group to the flat list of bindings the host must
    /// set: every mapping in every mode, in mode-major order, with the
    /// leader prefixed and the right-hand side resolved as `rhs_text`
    /// says.
    pub fn resolved_mappings(&self) -> (r: Vec<KeyBinding>)
        ensures
            r.deep_view() == resolved_spec(self@, self@.modes.len() as int),
    {
        let ghost kv = self@;
        let mut r: Vec<KeyBinding> = Vec::new();
        let mut mi: usize = 0;
        while mi < self.modes.len()
            invariant
                0 <= mi <= self.modes.len(),
                kv == self@,
                r.deep_view() == resolved_spec(kv, mi as int),
            decreases self.modes.len() - mi,
        {
            let mut ji: usize = 0;
            while ji < self.mappings.len()
                invariant
                    0 <= mi < self.modes.len(),
                    0 <= ji <= self.mappings.len(),
                    kv == self@,
                    r.deep_view() == resolved_spec(kv, mi as int) + row_of(
                        kv,
                        kv.modes[mi as int],
                    ).take(ji as int),
                decreases self.mappings.len() - ji,
            {
                let mode = self.modes[mi].clone();
                let mut lhs = self.leader.clone();
                lhs.append(self.mappings[ji].0.as_str());
                let rhs = if self.lua {
                    let mut out = "<CMD>lua ".to_owned();
                    out.append(self.mappings[ji].1.as_str());
                    let tail = self.mappings[ji].1.as_str();
                    let tn = tail.unicode_len();
                    if !(tn > 0 && tail.get_char(tn - 1) == ')') {
                        out.push('(');
                        out.push(')');
                    }
                    out.append("<CR>");
                    proof {
                        assert(out@ =~= rhs_text(
                            kv.lua,
                            kv.command,
                            kv.mappings[ji as int].1,
                        ));
                    }
                    out
                } else if self.command {
                    let mut out = "<CMD>".to_owned();
                    out.append(self.mappings[ji].1.as_str());
                    out.append("<CR>");
                    proof {
                        assert(out@ =~= rhs_text(
                            kv.lua,
                            kv.command,
                            kv.mappings[ji as int].1,
                        ));
                    }
                    out
                } else {
                    self.mappings[ji].1.clone()
                };
                let binding = KeyBinding {
                    mode,
                    lhs,
                    rhs,
                    noremap: !self.recursive,
                    silent: self.silent,
                    unique: self.unique,
                    expr: self.expression,
                };
                let ghost gb = binding@;
                let ghost prev = r.deep_view();
                proof {
                    assert(gb == binding_of(kv, kv.modes[mi as int], kv.mappings[ji as int]));
                }
                r.push(binding);
                proof {
                    assert(r.deep_view() =~~= prev.push(gb));
                    assert(row_of(kv, kv.modes[mi as int]).take(ji + 1) =~~= row_of(
                        kv,
                        kv.modes[mi as int],
                    ).take(ji as int).push(gb));
                    assert(r.deep_view() =~~= resolved_spec(kv, mi as int) + row_of(
                        kv,
                        kv.modes[mi as int],
                    ).take(ji + 1));
                }
                ji += 1;
            }
            proof {
                let row = row_of(kv, kv.modes[mi as int]);
                assert(row.take(row.len() as int) =~~= row);
                assert(resolved_spec(kv, mi + 1) == resolved_spec(kv, mi as int) + row);
            }
            mi += 1;
        }
        r
    }

    /// A copy of this group, equal under the view.
    pub fn dup(&self) -> (r: Keys)
        ensures
            r@ == self@,
    {
        let r = Keys {
            modes: dup_strings(&self.modes),
            recursive: self.recursive,
            command: self.command,
            lua: self.lua,
            silent: self.silent,
            unique: self.unique,
            expression: self.expression,
            leader: self.leader.clone(),
            mappings: dup_entries(&self.mappings),
        };
        r
    }
}

/// A triggered action from one document: host events it fires on, the
/// commands and function calls it runs, and an optional event pattern.
#[derive(Debug)]
pub struct AutoCommand {
    pub triggers: Vec<String>,
    pub cmd: Vec<String>,
    pub lua: Vec<String>,
    pub pattern: Option<String>,
}

/// The mathematical shape of a triggered action.
pub struct AutoCommandView {
    pub triggers: Seq<Seq<char>>,
    pub cmd: Seq<Seq<char>>,
    pub lua: Seq<Seq<char>>,
    pub pattern: Option<Seq<char>>,
}

impl View for AutoCommand {
    type V = AutoCommandView;

    open spec fn view(&self) -> AutoCommandView {
        AutoCommandView {
            triggers: self.triggers.deep_view(),
            cmd: self.cmd.deep_view(),
            lua: self.lua.deep_view(),
            pattern: match &self.pattern {
                Some(p) => Some(p@),
                None => None,
            },
        }
    }
}

impl DeepView for AutoCommand {
    type V = AutoCommandView;

    open spec fn deep_view(&self) -> AutoCommandView {
        self.view()
    }
}

/// The command a function-call entry runs: the named function is called,
/// with `()` added unless the text already ends in a call.
pub open spec fn lua_trigger_text(l: Seq<char>) -> Seq<char> {
    "lua "@ + l + (if ends_paren(l) {
        Seq::<char>::empty()
    } else {
        seq!['(', ')']
    })
}

/// The commands one triggered action runs, in order: its plain commands,
/// then its function calls as `lua_trigger_text` says.
pub open spec fn commands_spec(a: AutoCommandView) -> Seq<Seq<char>> {
    a.cmd + a.lua.map_values(|l: Seq<char>| lua_trigger_text(l))
}

impl AutoCommand {
    /// The commands this action runs, as `commands_spec` says.
    pub fn commands(&self) -> (r: Vec<String>)
        ensures
            r.deep_view() == commands_spec(self@),
    {
        let ghost av = self@;
        let mut r = dup_strings(&self.cmd);
        let mut i: usize = 0;
        while i < self.lua.len()
            invariant
                0 <= i <= self.lua.len(),
                av == self@,
                r.deep_view() == av.cmd + av.lua.map_values(|l: Seq<char>| lua_trigger_text(l)).take(
                    i as int,
                ),
            decreases self.lua.len() - i,
        {
            let l = self.lua[i].as_str();
            let mut out = "lua ".to_owned();
            out.append(l);
            let n = l.unicode_len();
            if !(n > 0 && l.get_char(n - 1) == ')') {
                out.push('(');
                out.push(')');
            }
            proof {
                assert(out@ =~= lua_trigger_text(av.lua[i as int]));
            }
            let ghost gout = out@;
            let ghost prev = r.deep_view();
            r.push(out);
            proof {
                let mapped = av.lua.map_values(|l: Seq<char>| lua_trigger_text(l));
                assert(r.deep_view() =~~= prev.push(gout));
                assert(mapped.take(i + 1) =~~= mapped.take(i as int).push(gout));
                assert(r.deep_view() =~~= av.cmd + mapped.take(i + 1));
            }
            i += 1;
        }
        proof {
            let mapped = av.lua.map_values(|l: Seq<char>| lua_trigger_text(l));
            assert(mapped.take(mapped.len() as int) =~~= mapped);
            assert(r.deep_view() =~~= commands_spec(av));
        }
        r
    }

    /// A copy of this action, equal under the view.
    pub fn dup(&self) -> (r: AutoCommand)
        ensures
            r@ == self@,
    {
        AutoCommand {
            triggers: dup_strings(&self.triggers),
            cmd: dup_strings(&self.cmd),
            lua: dup_strings(&self.lua),
            pattern: match &self.pattern {
                Some(p) => Some(p.clone()),
                None => None,
            },
        }
    }
}

/// One source document's parsed contribution: conditions gating when it
/// applies, and its bindings, option mutations, triggered actions and
/// module invocations, each in document order.
#[derive(Debug)]
pub struct Config {
    pub conditions: Vec<Condition>,
    pub keys: Vec<Keys>,
    pub set: Vec<SetDirective>,
    pub auto_commands: Vec<AutoCommand>,
    pub lua: LuaConfig,
}

/// The mathematical shape of a fragment: the views of its five parts.
pub struct ConfigView {
    pub conditions: Seq<Seq<Seq<char>>>,
    pub keys: Seq<KeysView>,
    pub set: Seq<(Seq<char>, crate::algebra::Operation, crate::value::ValueView)>,
    pub auto_commands: Seq<AutoCommandView>,
    pub lua: Seq<(Seq<char>, Seq<char>)>,
}

impl View for Config {
    type V = ConfigView;

    open spec fn view(&self) -> ConfigView {
        ConfigView {
            conditions: self.conditions.deep_view(),
            keys: self.keys.deep_view(),
            set: self.set.deep_view(),
            auto_commands: self.auto_commands.deep_view(),
            lua: self.lua.invocations.deep_view(),
        }
    }
}

impl DeepView for Config {
    type V = ConfigView;

    open spec fn deep_view(&self) -> ConfigView {
        self.view()
    }
}

/// The merge of two fragments: the later fragment's entries appended
/// after the earlier one's, field by field; the conditions are the
/// earlier fragment's and are not merged.
pub open spec fn merge_spec(a: ConfigView, b: ConfigView) -> ConfigView {
    ConfigView {
        conditions: a.conditions,
        keys: a.keys + b.keys,
        set: a.set + b.set,
        auto_commands: a.auto_commands + b.auto_commands,
        lua: a.lua + b.lua,
    }
}

impl Config {
    /// A fragment with nothing in it and no conditions.
    pub fn new() -> (r: Config)
        ensures
            r@.conditions == Seq::<Seq<Seq<char>>>::empty(),
            r@.keys == Seq::<KeysView>::empty(),
            r@.set == Seq::<(Seq<char>, crate::algebra::Operation, crate::value::ValueView)>::empty(),
            r@.auto_commands == Seq::<AutoCommandView>::empty(),
            r@.lua == Seq::<(Seq<char>, Seq<char>)>::empty(),
    {
        let r = Config {
            conditions: Vec::new(),
            keys: Vec::new(),
            set: Vec::new(),
            auto_commands: Vec::new(),
            lua: LuaConfig::new(),
        };
        proof {
            assert(r@.conditions =~~= Seq::<Seq<Seq<char>>>::empty());
            assert(r@.keys =~~= Seq::<KeysView>::empty());
            assert(r@.set =~~= Seq::<
                (Seq<char>, crate::algebra::Operation, crate::value::ValueView),
            >::empty());
            assert(r@.auto_commands =~~= Seq::<AutoCommandView>::empty());
            assert(r@.lua =~~= Seq::<(Seq<char>, Seq<char>)>::empty());
        }
        r
    }

    /// Merges `other` into this fragment, as `merge_spec` says: every
    /// field concatenates in arrival order, the conditions stay this
    /// fragment's.
    pub fn merge(&mut self, other: Config)
        ensures
            final(self)@ == merge_spec(old(self)@, other@),
    {
        let mut tail = other;
        self.keys.append(&mut tail.keys);
        self.set.append(&mut tail.set);
        self.auto_commands.append(&mut tail.auto_commands);
        self.lua.merge(tail.lua);
        proof {
            assert(self@.keys =~~= merge_spec(old(self)@, other@).keys);
            assert(self@.set =~~= merge_spec(old(self)@, other@).set);
            assert(self@.auto_commands =~~= merge_spec(old(self)@, other@).auto_commands);
            assert(self@.lua =~~= merge_spec(old(self)@, other@).lua);
        }
    }

    /// A copy of this fragment, equal under the view.
    pub fn dup(&self) -> (r: Config)
        ensures
            r@ == self@,
    {
        let mut conditions: Vec<Condition> = Vec::new();
        let mut i: usize = 0;
        while i < self.conditions.len()
            invariant
                0 <= i <= self.conditions.len(),
                conditions.deep_view() == self.conditions.deep_view().take(i as int),
            decreases self.conditions.len() - i,
        {
            let d = self.conditions[i].dup();
            let ghost gd = d@;
            let ghost prev = conditions.deep_view();
            conditions.push(d);
            proof {
                assert(conditions.deep_view() =~~= prev.push(gd));
                assert(conditions.deep_view() =~~= self.conditions.deep_view().take(i + 1));
            }
            i += 1;
        }
        let mut keys: Vec<Keys> = Vec::new();
        let mut i: usize = 0;
        while i < self.keys.len()
            invariant
                0 <= i <= self.keys.len(),
                keys.deep_view() == self.keys.deep_view().take(i as int),
            decreases self.keys.len() - i,
        {
            let d = self.keys[i].dup();
            let ghost gd = d@;
            let ghost prev = keys.deep_view();
            keys.push(d);
            proof {
                assert(keys.deep_view() =~~= prev.push(gd));
                assert(keys.deep_view() =~~= self.keys.deep_view().take(i + 1));
            }
            i += 1;
        }
        let mut set: Vec<SetDirective> = Vec::new();
        let mut i: usize = 0;
        while i < self.set.len()
            invariant
                0 <= i <= self.set.len(),
                set.deep_view() == self.set.deep_view().take(i as int),
            decreases self.set.len() - i,
        {
            let d = self.set[i].dup();
            let ghost gd = d@;
            let ghost prev = set.deep_view();
            set.push(d);
            proof {
                assert(set.deep_view() =~~= prev.push(gd));
                assert(set.deep_view() =~~= self.set.deep_view().take(i + 1));
            }
            i += 1;
        }
        let mut auto_commands: Vec<AutoCommand> = Vec::new();
        let mut i: usize = 0;
        while i < self.auto_commands.len()
            invariant
                0 <= i <= self.auto_commands.len(),
                auto_commands.deep_view() == self.auto_commands.deep_view().take(i as int),
            decreases self.auto_commands.len() - i,
        {
            let d = self.auto_commands[i].dup();
            let ghost gd = d@;
            let ghost prev = auto_commands.deep_view();
            auto_commands.push(d);
            proof {
                assert(auto_commands.deep_view() =~~= prev.push(gd));
                assert(auto_commands.deep_view() =~~= self.auto_commands.deep_view().take(i + 1));
            }
            i += 1;
        }
        let lua = self.lua.dup();
        let r = Config { conditions, keys, set, auto_commands, lua };
        proof {
            assert(self.conditions.deep_view().take(self.conditions.deep_view().len() as int)
                =~~= self.conditions.deep_view());
            assert(self.keys.deep_view().take(self.keys.deep_view().len() as int)
                =~~= self.keys.deep_view());
            assert(self.set.deep_view().take(self.set.deep_view().len() as int)
                =~~= self.set.deep_view());
            assert(self.auto_commands.deep_view().take(
                self.auto_commands.deep_view().len() as int,
            ) =~~= self.auto_commands.deep_view());
        }
        r
    }
}

/// The structured-document format a file extension names, compared
/// case-insensitively on ASCII letters.
#[derive(Debug, Clone, Copy, PartialEq, Eq)]
pub enum DocFormat {
    Toml,
    Yaml,
}

/// The format for a lowercased extension: `toml` parses as TOML; `json`,
/// `yml` and `yaml` parse as YAML; anything else is not a configuration
/// document.
pub open spec fn format_for_ext(e: Seq<char>) -> Option<DocFormat> {
    let low = e.map_values(|c: char| crate::text::lower_ascii_char(c));
    if low == "json"@ || low == "yml"@ || low == "yaml"@ {
        Some(DocFormat::Yaml)
    } else if low == "toml"@ {
        Some(DocFormat::Toml)
    } else {
        None
    }
}

/// The format a file extension names, as `format_for_ext` says.
pub fn format_for_extension(ext: &str) -> (r: Option<DocFormat>)
    ensures
        r == format_for_ext(ext@),
{
    let low = crate::text::ascii_lower(ext);
    let s = low.as_str();
    if crate::text::str_eq(s, "json") || crate::text::str_eq(s, "yml") || crate::text::str_eq(
        s,
        "yaml",
    ) {
        Some(DocFormat::Yaml)
    } else if crate::text::str_eq(s, "toml") {
        Some(DocFormat::Toml)
    } else {
        None
    }
}

} // verus!
