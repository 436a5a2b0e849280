use declconf::config::{format_for_extension, AutoCommand, DocFormat, Keys};
use declconf::lua::{
    render_sub_config, render_value, Assignment, FunctionCall, FunctionCallWithArguments,
    FunctionName, LuaConfig, LuaValue, ModuleInvocation, SubConfig,
};

fn s(x: &str) -> String {
    x.to_string()
}

#[test]
fn scalar_values_render_to_script_text() {
    assert_eq!(render_value(&LuaValue::Bool(true)), s("true"));
    assert_eq!(render_value(&LuaValue::Bool(false)), s("false"));
    assert_eq!(render_value(&LuaValue::Number(s("3.5"))), s("3.5"));
    assert_eq!(render_value(&LuaValue::Str(s("plain"))), s("\"plain\""));
}

#[test]
fn strings_are_escaped_when_quoted() {
    assert_eq!(
        render_value(&LuaValue::Str(s("a\"b\\c\nd"))),
        s("\"a\\\"b\\\\c\\nd\"")
    );
}

#[test]
fn lists_and_tables_render_nested() {
    let v = LuaValue::List(vec![
        LuaValue::Bool(true),
        LuaValue::Number(s("2")),
        LuaValue::List(vec![LuaValue::Str(s("x"))]),
    ]);
    assert_eq!(render_value(&v), s("{true,2,{\"x\"}}"));
    let t = LuaValue::Table(vec![
        (s("a"), LuaValue::Number(s("1"))),
        (s("b"), LuaValue::Str(s("v"))),
    ]);
    assert_eq!(render_value(&t), s("{[\"a\"]=1,[\"b\"]=\"v\"}"));
}

#[test]
fn function_names_parse_from_their_call_form() {
    let f = FunctionName::parse("setup()").expect("ends with call parens");
    assert_eq!(f.as_str(), "setup");
    assert!(FunctionName::parse("setup").is_none());
    assert!(FunctionName::parse("")
        .is_none());
}

#[test]
fn call_and_assignment_tables_need_exactly_one_entry() {
    let ok = FunctionCallWithArguments::from_pairs(vec![(
        FunctionName::new(s("setup")),
        LuaValue::Bool(true),
    )]);
    assert!(ok.is_some());
    assert!(FunctionCallWithArguments::from_pairs(vec![]).is_none());
    let two = vec![
        (FunctionName::new(s("a")), LuaValue::Bool(true)),
        (FunctionName::new(s("b")), LuaValue::Bool(false)),
    ];
    assert!(FunctionCallWithArguments::from_pairs(two).is_none());
    assert!(Assignment::from_pairs(vec![(s("x"), LuaValue::Number(s("1")))]).is_some());
    assert!(Assignment::from_pairs(vec![]).is_none());
}

#[test]
fn sub_configs_render_each_shape() {
    let empty = SubConfig::FunctionCall(FunctionCall::Empty(FunctionName::new(s("setup"))));
    assert_eq!(render_sub_config(&empty), s("setup()"));
    let with_args = SubConfig::FunctionCall(FunctionCall::WithArguments(
        FunctionCallWithArguments {
            function: FunctionName::new(s("setup")),
            arguments: LuaValue::Table(vec![(s("indent"), LuaValue::Number(s("2")))]),
        },
    ));
    assert_eq!(render_sub_config(&with_args), s("setup({[\"indent\"]=2})"));
    let assign = SubConfig::Assignment(Assignment {
        variable: s("opts"),
        value: LuaValue::Bool(true),
    });
    assert_eq!(render_sub_config(&assign), s("opts=true"));
    let expr = SubConfig::Expression(s("setup().extra"));
    assert_eq!(render_sub_config(&expr), s("setup().extra"));
}

#[test]
fn invocations_render_require_scripts_in_order() {
    let mut cfg = LuaConfig::new();
    cfg.invocations.push(ModuleInvocation {
        module: s("lspconfig"),
        sub: SubConfig::FunctionCall(FunctionCall::Empty(FunctionName::new(s("setup")))),
    });
    let mut other = LuaConfig::new();
    other.invocations.push(ModuleInvocation {
        module: s("cmp"),
        sub: SubConfig::Expression(s("setup{}")),
    });
    cfg.merge(other);
    assert_eq!(
        cfg.scripts(),
        vec![s("require(\"lspconfig\").setup()"), s("require(\"cmp\").setup{}")]
    );
}

#[test]
fn resolved_mappings_cross_modes_with_transforms() {
    let k = Keys {
        modes: vec![s("n"), s("v")],
        recursive: false,
        command: false,
        lua: true,
        silent: true,
        unique: false,
        expression: false,
        leader: s("<leader>"),
        mappings: vec![(s("f"), s("find_files")), (s("g"), s("grep(2)"))],
    };
    let bindings = k.resolved_mappings();
    assert_eq!(bindings.len(), 4);
    assert_eq!(bindings[0].mode, s("n"));
    assert_eq!(bindings[0].lhs, s("<leader>f"));
    assert_eq!(bindings[0].rhs, s("<CMD>lua find_files()<CR>"));
    assert!(bindings[0].noremap);
    assert!(bindings[0].silent);
    assert_eq!(bindings[1].rhs, s("<CMD>lua grep(2)<CR>"));
    assert_eq!(bindings[2].mode, s("v"));
    assert_eq!(bindings[2].lhs, s("<leader>f"));
}

#[test]
fn command_mappings_wrap_in_cmd_markers() {
    let k = Keys {
        modes: vec![s("n")],
        recursive: true,
        command: true,
        lua: false,
        silent: false,
        unique: true,
        expression: true,
        leader: s(""),
        mappings: vec![(s("w"), s("write"))],
    };
    let bindings = k.resolved_mappings();
    assert_eq!(bindings.len(), 1);
    assert_eq!(bindings[0].rhs, s("<CMD>write<CR>"));
    assert!(!bindings[0].noremap);
    assert!(bindings[0].unique);
    assert!(bindings[0].expr);
}

#[test]
fn raw_mappings_pass_through() {
    let k = Keys {
        modes: vec![s("i")],
        recursive: true,
        command: false,
        lua: false,
        silent: false,
        unique: false,
        expression: false,
        leader: s(""),
        mappings: vec![(s("jk"), s("<Esc>"))],
    };
    let bindings = k.resolved_mappings();
    assert_eq!(bindings[0].rhs, s("<Esc>"));
}

#[test]
fn auto_command_lua_entries_become_commands() {
    let a = AutoCommand {
        triggers: vec![s("BufWritePre")],
        cmd: vec![s("echo 'saving'")],
        lua: vec![s("format"), s("lint(1)")],
        pattern: Some(s("*.rs")),
    };
    assert_eq!(
        a.commands(),
        vec![s("echo 'saving'"), s("lua format()"), s("lua lint(1)")]
    );
}

#[test]
fn document_formats_follow_the_extension() {
    assert_eq!(format_for_extension("toml"), Some(DocFormat::Toml));
    assert_eq!(format_for_extension("TOML"), Some(DocFormat::Toml));
    assert_eq!(format_for_extension("yaml"), Some(DocFormat::Yaml));
    assert_eq!(format_for_extension("yml"), Some(DocFormat::Yaml));
    assert_eq!(format_for_extension("json"), Some(DocFormat::Yaml));
    assert_eq!(format_for_extension("txt"), None);
}
