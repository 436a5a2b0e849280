//! Module invocations: the part of a fragment that asks a host module to
//! be required and configured. Each invocation renders to one script
//! line; rendering is pure string building and is verified against spec
//! functions that define the exact text produced.

use vstd::prelude::*;


verus! {

/// One value in a module invocation: a boolean, a quoted string, a
/// numeral (carried as its source text), a list or a string-keyed table.
#[derive(Debug)]
pub enum LuaValue {
    Bool(bool),
    Str(String),
    Number(String),
    List(Vec<LuaValue>),
    Table(Vec<(String, LuaValue)>),
}

/// The escape of one character inside a quoted string: quote, backslash
/// and the common control characters are escaped, everything else stands
/// for itself.
pub open spec fn esc_char(c: char) -> Seq<char> {
    if c == '"' {
        seq!['\\', '"']
    } else if c == '\\' {
        seq!['\\', '\\']
    } else if c == '\n' {
        seq!['\\', 'n']
    } else if c == '\r' {
        seq!['\\', 'r']
    } else if c == '\t' {
        seq!['\\', 't']
    } else {
        seq![c]
    }
}

/// The escaped body of a quoted string.
pub open spec fn esc_text(s: Seq<char>) -> Seq<char>
    decreases s.len(),
{
    if s.len() == 0 {
        Seq::empty()
    } else {
        esc_text(s.drop_last()) + esc_char(s.last())
    }
}

/// A string as it renders inside a script: quoted and escaped.
pub open spec fn quote_text(s: Seq<char>) -> Seq<char> {
    seq!['"'] + esc_text(s) + seq!['"']
}

/// The text a value renders to.
pub open spec fn lua_value_text(v: LuaValue) -> Seq<char>
    decreases v,
{
    match v {
        LuaValue::Bool(b) => if b {
            "true"@
        } else {
            "false"@
        },
        LuaValue::Str(s) => quote_text(s@),
        LuaValue::Number(n) => n@,
        LuaValue::List(items) => seq!['{'] + lua_items_text(items@, items@.len() as int) + seq!['}'],
        LuaValue::Table(entries) => seq!['{'] + lua_entries_text(entries@, entries@.len() as int) + seq!['}'],
    }
}

/// The comma-joined texts of the first `i` items.
pub open spec fn lua_items_text(items: Seq<LuaValue>, i: int) -> Seq<char>
    decreases items, i,
{
    if i <= 0 || i > items.len() {
        Seq::empty()
    } else if i == 1 {
        lua_value_text(items[0])
    } else {
        lua_items_text(items, i - 1) + seq![','] + lua_value_text(items[i - 1])
    }
}

/// The comma-joined `["key"]=value` texts of the first `i` entries.
pub open spec fn lua_entries_text(entries: Seq<(String, LuaValue)>, i: int) -> Seq<char>
    decreases entries, i,
{
    if i <= 0 || i > entries.len() {
        Seq::empty()
    } else if i == 1 {
        lua_entry_text(entries[0])
    } else {
        lua_entries_text(entries, i - 1) + seq![','] + lua_entry_text(entries[i - 1])
    }
}

/// The text `["key"]=value` of one table entry.
pub open spec fn lua_entry_text(e: (String, LuaValue)) -> Seq<char>
    decreases e,
{
    seq!['['] + quote_text(e.0@) + seq![']', '='] + lua_value_text(e.1)
}

/// Quotes and escapes `s`, as `quote_text` says.
pub fn quote_str(s: &str) -> (r: String)
    ensures
        r@ == quote_text(s@),
{
    let n = s.unicode_len();
    let mut out = String::new();
    out.push('"');
    let mut i: usize = 0;
    while i < n
        invariant
            0 <= i <= n,
            n == s@.len(),
            out@ == seq!['"'] + esc_text(s@.take(i as int)),
        decreases n - i,
    {
        proof {
            assert(s@.take(i + 1).drop_last() =~= s@.take(i as int));
            assert(s@.take(i + 1).last() == s@[i as int]);
        }
        let c = s.get_char(i);
        if c == '"' {
            out.push('\\');
            out.push('"');
        } else if c == '\\' {
            out.push('\\');
            out.push('\\');
        } else if c == '\n' {
            out.push('\\');
            out.push('n');
        } else if c == '\r' {
            out.push('\\');
            out.push('r');
        } else if c == '\t' {
            out.push('\\');
            out.push('t');
        } else {
            out.push(c);
        }
        proof {
            assert(out@ =~= seq!['"'] + esc_text(s@.take(i + 1)));
        }
        i += 1;
    }
    out.push('"');
    proof {
        assert(s@.take(n as int) =~= s@);
        assert(out@ =~= quote_text(s@));
    }
    out
}

/// Renders a value to its script text, as `lua_value_text` says.
pub fn render_value(v: &LuaValue) -> (r: String)
    ensures
        r@ == lua_value_text(*v),
    decreases *v,
{
    match v {
        LuaValue::Bool(b) => {
            if *b {
                "true".to_owned()
            } else {
                "false".to_owned()
            }
        },
        LuaValue::Str(s) => quote_str(s.as_str()),
        LuaValue::Number(n) => n.clone(),
        LuaValue::List(items) => {
            let mut out = String::new();
            out.push('{');
            let mut i: usize = 0;
            while i < items.len()
                invariant
                    0 <= i <= items.len(),
                    out@ == seq!['{'] + lua_items_text(items@, i as int),
                    *v == LuaValue::List(*items),
                decreases items.len() - i,
            {
                if i > 0 {
                    out.push(',');
                }
                proof {
                    assert(decreases_to!(*v => (*v)->List_0@[i as int]));
                }
                let t = render_value(&items[i]);
                out.append(t.as_str());
                proof {
                    assert(out@ =~= seq!['{'] + lua_items_text(items@, i + 1));
                }
                i += 1;
            }
            out.push('}');
            proof {
                assert(out@ =~= lua_value_text(*v));
            }
            out
        },
        LuaValue::Table(entries) => {
            let mut out = String::new();
            out.push('{');
            let mut i: usize = 0;
            while i < entries.len()
                invariant
                    0 <= i <= entries.len(),
                    out@ == seq!['{'] + lua_entries_text(entries@, i as int),
                    *v == LuaValue::Table(*entries),
                decreases entries.len() - i,
            {
                if i > 0 {
                    out.push(',');
                }
                out.push('[');
                let k = quote_str(entries[i].0.as_str());
                out.append(k.as_str());
                out.push(']');
                out.push('=');
                proof {
                    assert(decreases_to!(*v => (*v)->Table_0@[i as int].1));
                }
                let t = render_value(&entries[i].1);
                out.append(t.as_str());
                proof {
                    let ghost ev = entries@;
                    assert(lua_entry_text(ev[i as int]) == seq!['['] + quote_text(
                        ev[i as int].0@,
                    ) + seq![']', '='] + lua_value_text(ev[i as int].1));
                    if i == 0 {
                        assert(lua_entries_text(ev, 1) == lua_entry_text(ev[0]));
                    } else {
                        assert(lua_entries_text(ev, i + 1) == lua_entries_text(ev, i as int)
                            + seq![','] + lua_entry_text(ev[i as int]));
                    }
                    assert(out@ =~= seq!['{'] + lua_entries_text(entries@, i + 1));
                }
                i += 1;
            }
            out.push('}');
            proof {
                assert(out@ =~= lua_value_text(*v));
            }
            out
        },
    }
}

/// The bare name of a function, stored without the trailing `()` that
/// documents write after it.
#[derive(Debug, Clone)]
pub struct FunctionName(String);

impl View for FunctionName {
    type V = Seq<char>;

    closed spec fn view(&self) -> Seq<char> {
        self.0@
    }
}

impl FunctionName {
    /// Reads a function name from its document form, which must end in
    /// `()`; the stored name is the text before that suffix.
    pub fn parse(s: &str) -> (r: Option<FunctionName>)
        ensures
            match r {
                Some(name) => s@.len() >= 2 && s@ == name@ + seq!['(', ')'],
                None => !(s@.len() >= 2 && s@[s@.len() - 2] == '(' && s@[s@.len() - 1] == ')'),
            },
    {
        let n = s.unicode_len();
        if n >= 2 && s.get_char(n - 2) == '(' && s.get_char(n - 1) == ')' {
            let bare = s.substring_char(0, n - 2);
            let r = FunctionName(bare.to_owned());
            proof {
                assert(s@ =~= r@ + seq!['(', ')']);
            }
            Some(r)
        } else {
            None
        }
    }

    /// A function name taken as given, without a `()` suffix to strip.
    pub fn new(name: String) -> (r: FunctionName)
        ensures
            r@ == name@,
    {
        FunctionName(name)
    }

    /// The bare name.
    pub fn as_str(&self) -> (r: &str)
        ensures
            r@ == self@,
    {
        self.0.as_str()
    }
}

/// A function call with arguments, as read from a one-entry table
/// mapping the function name to its argument value.
#[derive(Debug)]
pub struct FunctionCallWithArguments {
    pub function: FunctionName,
    pub arguments: LuaValue,
}

impl FunctionCallWithArguments {
    /// Reads a call from the pairs of a document table, which must hold
    /// exactly one entry.
    pub fn from_pairs(mut pairs: Vec<(FunctionName, LuaValue)>) -> (r: Option<
        FunctionCallWithArguments,
    >)
        ensures
            match r {
                Some(call) => pairs@.len() == 1 && call.function == pairs@[0].0 && call.arguments
                    == pairs@[0].1,
                None => pairs@.len() != 1,
            },
    {
        if pairs.len() == 1 {
            let (function, arguments) = pairs.remove(0);
            Some(FunctionCallWithArguments { function, arguments })
        } else {
            None
        }
    }
}

/// An assignment `variable=value`, as read from a one-entry table.
#[derive(Debug)]
pub struct Assignment {
    pub variable: String,
    pub value: LuaValue,
}

impl Assignment {
    /// Reads an assignment from the pairs of a document table, which
    /// must hold exactly one entry.
    pub fn from_pairs(mut pairs: Vec<(String, LuaValue)>) -> (r: Option<Assignment>)
        ensures
            match r {
                Some(a) => pairs@.len() == 1 && a.variable == pairs@[0].0 && a.value == pairs@[0].1,
                None => pairs@.len() != 1,
            },
    {
        if pairs.len() == 1 {
            let (variable, value) = pairs.remove(0);
            Some(Assignment { variable, value })
        } else {
            None
        }
    }
}

/// One configuration step for a required module: a function call, an
/// assignment, or a raw expression.
#[derive(Debug)]
pub enum SubConfig {
    FunctionCall(FunctionCall),
    Assignment(Assignment),
    Expression(String),
}

/// A function call: bare (no arguments) or with an argument value.
#[derive(Debug)]
pub enum FunctionCall {
    Empty(FunctionName),
    WithArguments(FunctionCallWithArguments),
}

/// The text a function call renders to.
pub open spec fn function_call_text(fc: FunctionCall) -> Seq<char> {
    match fc {
        FunctionCall::Empty(name) => name@ + seq!['(', ')'],
        FunctionCall::WithArguments(call) => call.function@ + seq!['('] + lua_value_text(
            call.arguments,
        ) + seq![')'],
    }
}

/// The text a configuration step renders to.
pub open spec fn sub_config_text(sc: SubConfig) -> Seq<char> {
    match sc {
        SubConfig::FunctionCall(fc) => function_call_text(fc),
        SubConfig::Assignment(a) => a.variable@ + seq!['='] + lua_value_text(a.value),
        SubConfig::Expression(e) => e@,
    }
}

/// Renders one configuration step, as `sub_config_text` says.
pub fn render_sub_config(sc: &SubConfig) -> (r: String)
    ensures
        r@ == sub_config_text(*sc),
{
    match sc {
        SubConfig::FunctionCall(FunctionCall::Empty(name)) => {
            let mut out = name.as_str().to_owned();
            out.push('(');
            out.push(')');
            proof {
                assert(out@ =~= sub_config_text(*sc));
            }
            out
        },
        SubConfig::FunctionCall(FunctionCall::WithArguments(call)) => {
            let mut out = call.function.as_str().to_owned();
            out.push('(');
            let args = render_value(&call.arguments);
            out.append(args.as_str());
            out.push(')');
            proof {
                assert(out@ =~= sub_config_text(*sc));
            }
            out
        },
        SubConfig::Assignment(a) => {
            let mut out = a.variable.clone();
            out.push('=');
            let val = render_value(&a.value);
            out.append(val.as_str());
            proof {
                assert(out@ =~= sub_config_text(*sc));
            }
            out
        },
        SubConfig::Expression(e) => e.clone(),
    }
}

/// One module invocation: require `module`, then perform one
/// configuration step on it.
#[derive(Debug)]
pub struct ModuleInvocation {
    pub module: String,
    pub sub: SubConfig,
}

impl View for ModuleInvocation {
    type V = (Seq<char>, Seq<char>);

    open spec fn view(&self) -> (Seq<char>, Seq<char>) {
        (self.module@, sub_config_text(self.sub))
    }
}

impl DeepView for ModuleInvocation {
    type V = (Seq<char>, Seq<char>);

    open spec fn deep_view(&self) -> (Seq<char>, Seq<char>) {
        self.view()
    }
}

/// The script line an invocation with the given module name and rendered
/// configuration step produces.
pub open spec fn script_of(module: Seq<char>, sub: Seq<char>) -> Seq<char> {
    "require("@ + quote_text(module) + seq![')', '.'] + sub
}

/// The script line one invocation renders to: requiring the quoted
/// module, then the configuration step.
pub open spec fn invocation_script(inv: ModuleInvocation) -> Seq<char> {
    script_of(inv@.0, inv@.1)
}

/// The module invocations of a fragment, in document order.
#[derive(Debug)]
pub struct LuaConfig {
    pub invocations: Vec<ModuleInvocation>,
}

impl LuaConfig {
    /// A fragment part with no invocations.
    pub fn new() -> (r: LuaConfig)
        ensures
            r.invocations@ == Seq::<ModuleInvocation>::empty(),
    {
        LuaConfig { invocations: Vec::new() }
    }

    /// Merging appends the other part's invocations after this part's,
    /// preserving arrival order.
    pub fn merge(&mut self, other: LuaConfig)
        ensures
            final(self).invocations@ == old(self).invocations@ + other.invocations@,
    {
        let mut tail = other;
        self.invocations.append(&mut tail.invocations);
    }

    /// The script lines of all invocations, in order, as
    /// `invocation_script` says.
    pub fn scripts(&self) -> (r: Vec<String>)
        ensures
            r.deep_view() == self.invocations@.map_values(|inv| invocation_script(inv)),
    {
        let ghost target = self.invocations@.map_values(|inv| invocation_script(inv));
        let mut r: Vec<String> = Vec::new();
        let mut i: usize = 0;
        while i < self.invocations.len()
            invariant
                0 <= i <= self.invocations.len(),
                target == self.invocations@.map_values(|inv| invocation_script(inv)),
                r.deep_view() == target.take(i as int),
            decreases self.invocations.len() - i,
        {
            let inv = &self.invocations[i];
            let mut out = "require(".to_owned();
            let q = quote_str(inv.module.as_str());
            out.append(q.as_str());
            out.push(')');
            out.push('.');
            let sub = render_sub_config(&inv.sub);
            out.append(sub.as_str());
            proof {
                assert(out@ =~= invocation_script(self.invocations@[i as int]));
            }
            let ghost gout = out@;
            let ghost prev = r.deep_view();
            r.push(out);
            proof {
                assert(r.deep_view() =~~= prev.push(gout));
                assert(prev.push(gout) =~~= target.take(i + 1));
            }
            i += 1;
        }
        proof {
            assert(target.take(target.len() as int) =~~= target);
        }
        r
    }
}

/// Pointwise equal renderings give equal joined list text.
proof fn lemma_items_text_congruent(a: Seq<LuaValue>, b: Seq<LuaValue>, i: int)
    requires
        a.len() == b.len(),
        forall|j: int| 0 <= j < a.len() ==> lua_value_text(#[trigger] a[j]) == lua_value_text(b[j]),
    ensures
        lua_items_text(a, i) == lua_items_text(b, i),
    decreases i,
{
    if i <= 0 || i > a.len() {
    } else if i == 1 {
    } else {
        lemma_items_text_congruent(a, b, i - 1);
    }
}

/// Pointwise equal keys and renderings give equal joined table text.
proof fn lemma_entries_text_congruent(a: Seq<(String, LuaValue)>, b: Seq<(String, LuaValue)>, i: int)
    requires
        a.len() == b.len(),
        forall|j: int|
            0 <= j < a.len() ==> (#[trigger] a[j]).0@ == b[j].0@ && lua_value_text(a[j].1)
                == lua_value_text(b[j].1),
    ensures
        lua_entries_text(a, i) == lua_entries_text(b, i),
    decreases i,
{
    if i <= 0 || i > a.len() {
    } else if i == 1 {
        assert(a[0].0@ == b[0].0@ && lua_value_text(a[0].1) == lua_value_text(b[0].1));
        assert(lua_entry_text(a[0]) == seq!['['] + quote_text(a[0].0@) + seq![']', '=']
            + lua_value_text(a[0].1));
        assert(lua_entry_text(b[0]) == seq!['['] + quote_text(b[0].0@) + seq![']', '=']
            + lua_value_text(b[0].1));
    } else {
        lemma_entries_text_congruent(a, b, i - 1);
        assert(a[i - 1].0@ == b[i - 1].0@ && lua_value_text(a[i - 1].1) == lua_value_text(
            b[i - 1].1,
        ));
        assert(lua_entry_text(a[i - 1]) == seq!['['] + quote_text(a[i - 1].0@) + seq![']', '=']
            + lua_value_text(a[i - 1].1));
        assert(lua_entry_text(b[i - 1]) == seq!['['] + quote_text(b[i - 1].0@) + seq![']', '=']
            + lua_value_text(b[i - 1].1));
    }
}

/// A copy of a value, rendering to the same text.
pub fn dup_lua_value(v: &LuaValue) -> (r: LuaValue)
    ensures
        lua_value_text(r) == lua_value_text(*v),
    decreases *v,
{
    match v {
        LuaValue::Bool(b) => LuaValue::Bool(*b),
        LuaValue::Str(s) => LuaValue::Str(s.clone()),
        LuaValue::Number(n) => LuaValue::Number(n.clone()),
        LuaValue::List(items) => {
            let mut out: Vec<LuaValue> = Vec::new();
            let mut i: usize = 0;
            while i < items.len()
                invariant
                    0 <= i <= items.len(),
                    out@.len() == i,
                    *v == LuaValue::List(*items),
                    forall|j: int|
                        0 <= j < i ==> lua_value_text(#[trigger] out@[j]) == lua_value_text(
                            items@[j],
                        ),
                decreases items.len() - i,
            {
                proof {
                    assert(decreases_to!(*v => (*v)->List_0@[i as int]));
                }
                let d = dup_lua_value(&items[i]);
                out.push(d);
                i += 1;
            }
            proof {
                lemma_items_text_congruent(out@, items@, items@.len() as int);
            }
            LuaValue::List(out)
        },
        LuaValue::Table(entries) => {
            let mut out: Vec<(String, LuaValue)> = Vec::new();
            let mut i: usize = 0;
            while i < entries.len()
                invariant
                    0 <= i <= entries.len(),
                    out@.len() == i,
                    *v == LuaValue::Table(*entries),
                    forall|j: int|
                        0 <= j < i ==> (#[trigger] out@[j]).0@ == entries@[j].0@ && lua_value_text(
                            out@[j].1,
                        ) == lua_value_text(entries@[j].1),
                decreases entries.len() - i,
            {
                proof {
                    assert(decreases_to!(*v => (*v)->Table_0@[i as int].1));
                }
                let d = dup_lua_value(&entries[i].1);
                out.push((entries[i].0.clone(), d));
                i += 1;
            }
            proof {
                lemma_entries_text_congruent(out@, entries@, entries@.len() as int);
            }
            LuaValue::Table(out)
        },
    }
}

impl FunctionName {
    /// A copy of this name.
    pub fn dup(&self) -> (r: FunctionName)
        ensures
            r == *self,
    {
        FunctionName(self.0.clone())
    }
}

impl SubConfig {
    /// A copy of this configuration step, rendering to the same text.
    pub fn dup(&self) -> (r: SubConfig)
        ensures
            sub_config_text(r) == sub_config_text(*self),
    {
        match self {
            SubConfig::FunctionCall(FunctionCall::Empty(name)) => SubConfig::FunctionCall(
                FunctionCall::Empty(name.dup()),
            ),
            SubConfig::FunctionCall(FunctionCall::WithArguments(call)) => SubConfig::FunctionCall(
                FunctionCall::WithArguments(
                    FunctionCallWithArguments {
                        function: call.function.dup(),
                        arguments: dup_lua_value(&call.arguments),
                    },
                ),
            ),
            SubConfig::Assignment(a) => SubConfig::Assignment(
                Assignment { variable: a.variable.clone(), value: dup_lua_value(&a.value) },
            ),
            SubConfig::Expression(e) => SubConfig::Expression(e.clone()),
        }
    }
}

impl ModuleInvocation {
    /// A copy of this invocation, equal under the view.
    pub fn dup(&self) -> (r: ModuleInvocation)
        ensures
            r@ == self@,
    {
        ModuleInvocation { module: self.module.clone(), sub: self.sub.dup() }
    }
}

impl LuaConfig {
    /// A copy of this fragment part, equal under the deep view.
    pub fn dup(&self) -> (r: LuaConfig)
        ensures
            r.invocations.deep_view() == self.invocations.deep_view(),
    {
        let mut out: Vec<ModuleInvocation> = Vec::new();
        let mut i: usize = 0;
        while i < self.invocations.len()
            invariant
                0 <= i <= self.invocations.len(),
                out.deep_view() == self.invocations.deep_view().take(i as int),
            decreases self.invocations.len() - i,
        {
            let d = self.invocations[i].dup();
            let ghost gd = d@;
            let ghost prev = out.deep_view();
            out.push(d);
            proof {
                assert(out.deep_view() =~~= prev.push(gd));
                assert(out.deep_view() =~~= self.invocations.deep_view().take(i + 1));
            }
            i += 1;
        }
        proof {
            assert(self.invocations.deep_view().take(self.invocations@.len() as int)
                =~~= self.invocations.deep_view());
        }
        LuaConfig { invocations: out }
    }
}

} // verus!
