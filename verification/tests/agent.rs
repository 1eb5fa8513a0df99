// `catalog()` is a catalog of the 17 documented tools, with schemas that
// carry the constraints these tests rely on.
use ananda_control::agent::{
    bridge_reply, bridge_response_json, check, invalid_json_reply, is_authorized, lookup,
    patch_settings, resolve, rpc, Json, Member, LIMIT,
};
use ananda_control::decimal::Decimal;

fn s(t: &str) -> Json {
    Json::Text(t.into())
}

fn n(x: i64) -> Json {
    Json::Number(Decimal { units: x as i128 * 1_000_000_000_000_000_000 })
}

fn obj(pairs: Vec<(&str, Json)>) -> Json {
    Json::Object(pairs.into_iter().map(|(k, v)| Member { key: k.into(), value: v }).collect())
}

fn arr(items: Vec<Json>) -> Json {
    Json::Array(items)
}

fn at<'a>(j: &'a Json, key: &str) -> &'a Json {
    lookup(j, key).unwrap_or(&Json::Null)
}

fn string() -> Json {
    obj(vec![("type", s("string")), ("minLength", n(1)), ("maxLength", n(200))])
}

fn number(lo: i64, hi: i64) -> Json {
    obj(vec![("type", s("number")), ("minimum", n(lo)), ("maximum", n(hi))])
}

fn boolean() -> Json {
    obj(vec![("type", s("boolean"))])
}

fn tool(name: &str, required: Vec<&str>, props: Vec<(&str, Json)>) -> Json {
    obj(vec![
        ("name", s(name)),
        (
            "inputSchema",
            obj(vec![
                ("type", s("object")),
                ("required", arr(required.into_iter().map(s).collect())),
                ("properties", obj(props)),
                ("additionalProperties", Json::Bool(false)),
            ]),
        ),
    ])
}

fn q_number() -> Json {
    obj(vec![
        ("type", s("number")),
        ("minimum", Json::Number(Decimal { units: 100_000_000_000_000_000 })),
        ("maximum", n(30)),
    ])
}

fn catalog() -> Json {
    arr(vec![
        tool("get_status", vec![], vec![]),
        tool("list_profiles", vec![], vec![]),
        tool("get_profile", vec!["profile"], vec![("profile", string())]),
        tool("activate_profile", vec!["profile"], vec![("profile", string())]),
        tool("set_eq", vec!["enabled"], vec![("enabled", boolean())]),
        tool("set_preamp", vec!["profile", "gainDb"], vec![("profile", string()), ("gainDb", number(-60, 20))]),
        tool(
            "edit_filter",
            vec!["profile", "filterId"],
            vec![
                ("profile", string()),
                ("filterId", string()),
                ("frequency", number(10, 22000)),
                ("gain", number(-30, 30)),
                ("q", q_number()),
                ("enabled", boolean()),
            ],
        ),
        tool(
            "add_filter",
            vec!["profile", "kind", "frequency", "gain", "q"],
            vec![
                ("profile", string()),
                ("kind", obj(vec![("type", s("string")), ("enum", arr(vec![s("PK"), s("LSC"), s("HSC"), s("HPQ"), s("LPQ")]))])),
                ("frequency", number(10, 22000)),
                ("gain", number(-30, 30)),
                ("q", q_number()),
                ("enabled", boolean()),
            ],
        ),
        tool("remove_filter", vec!["profile", "filterId"], vec![("profile", string()), ("filterId", string())]),
        tool(
            "manage_profile",
            vec!["action"],
            vec![
                ("action", obj(vec![("type", s("string")), ("enum", arr(vec![s("create"), s("duplicate"), s("rename"), s("delete"), s("up"), s("down")]))])),
                ("profile", string()),
                ("name", string()),
            ],
        ),
        tool("import_profile", vec!["format", "content", "name"], vec![("format", string()), ("content", string()), ("name", string())]),
        tool("export_profile", vec!["profile", "format"], vec![("profile", string()), ("format", string())]),
        tool("get_settings", vec![], vec![]),
        tool(
            "update_settings",
            vec![],
            vec![
                ("startWithWindows", boolean()),
                ("startInTray", boolean()),
                ("restoreLastProfile", boolean()),
                ("closeToTray", boolean()),
                ("notifications", boolean()),
                ("quickShortcut", string()),
            ],
        ),
        tool("manage_headphone", vec!["action"], vec![("action", string()), ("headphoneId", string()), ("name", string())]),
        tool("set_profile_headphone", vec!["profile", "headphoneId"], vec![("profile", string()), ("headphoneId", string())]),
        tool("control_window", vec!["action"], vec![("action", string()), ("page", string())]),
    ])
}

fn chk(name: &str, args: Json) -> Result<(), String> {
    check(&catalog(), &name.to_string(), &args)
}

fn call(request: Json, f: impl FnOnce(String, Json) -> Result<(Json, String), String>) -> Option<Json> {
    rpc(&request, &catalog(), &"0.1.0".to_string(), f)
}

fn text(j: &Json) -> Option<&str> {
    match j {
        Json::Text(t) => Some(t.as_str()),
        _ => None,
    }
}

#[test]
fn schemas_reject_invalid_and_unsafe_arguments() {
    assert!(chk("set_preamp", obj(vec![("profile", s("music")), ("gainDb", n(99))])).is_err());
    assert!(chk("set_eq", obj(vec![("enabled", s("false"))])).is_err());
    assert!(chk("get_status", obj(vec![("path", s("C:/secret"))])).is_err());
    assert!(chk("update_settings", obj(vec![("agentControl", Json::Bool(false))])).is_err());
    assert!(chk("edit_filter", obj(vec![("profile", s("music")), ("filterId", s("1")), ("q", n(0))])).is_err());
    assert!(chk("set_eq", obj(vec![("enabled", Json::Bool(false))])).is_ok());
}

#[test]
fn handshake_and_notifications() {
    let v = call(
        obj(vec![
            ("jsonrpc", s("2.0")),
            ("id", n(1)),
            ("method", s("initialize")),
            ("params", obj(vec![("protocolVersion", s("2025-06-18"))])),
        ]),
        |_, _| panic!(),
    )
    .unwrap();
    assert_eq!(text(at(at(&v, "result"), "protocolVersion")), Some("2025-06-18"));
    assert!(call(obj(vec![("jsonrpc", s("2.0")), ("method", s("notifications/initialized"))]), |_, _| panic!()).is_none());
    match catalog() {
        Json::Array(tools) => assert_eq!(tools.len(), 17),
        _ => panic!(),
    }
}

#[test]
fn errors_are_not_successes() {
    let v = call(
        obj(vec![
            ("jsonrpc", s("2.0")),
            ("id", n(2)),
            ("method", s("tools/call")),
            ("params", obj(vec![("name", s("set_eq")), ("arguments", obj(vec![("enabled", Json::Bool(false))]))])),
        ]),
        |_, _| Err("Locked file".into()),
    )
    .unwrap();
    assert!(matches!(at(at(&v, "result"), "isError"), Json::Bool(true)));
    let e = call(
        obj(vec![("jsonrpc", s("2.0")), ("id", n(3)), ("method", s("tools/call")), ("params", obj(vec![("name", s("shell"))]))]),
        |_, _| panic!(),
    )
    .unwrap();
    match at(at(&e, "error"), "code") {
        Json::Number(d) => assert_eq!(d.units, -32602 * 1_000_000_000_000_000_000),
        _ => panic!(),
    }
}

#[test]
fn bounded_framing() {
    let v = call(arr(vec![n(1), n(2)]), |_, _| panic!()).unwrap();
    match at(at(&v, "error"), "code") {
        Json::Number(d) => assert_eq!(d.units, -32600 * 1_000_000_000_000_000_000),
        _ => panic!(),
    }
    assert!(ananda_control::agent::line(&b"{}\n"[..]).is_ok());
    assert!(ananda_control::agent::line(&b"{}"[..]).is_err());
    assert!(ananda_control::agent::line(vec![b'a'; LIMIT as usize + 1].as_slice()).is_err());
}

#[test]
fn successful_calls_carry_text_and_structure() {
    let v = call(
        obj(vec![
            ("jsonrpc", s("2.0")),
            ("id", s("x")),
            ("method", s("tools/call")),
            ("params", obj(vec![("name", s("get_status"))])),
        ]),
        |name, args| {
            assert_eq!(name, "get_status");
            assert!(matches!(args, Json::Object(ref m) if m.is_empty()));
            Ok((obj(vec![("eqEnabled", Json::Bool(true))]), "{\"eqEnabled\":true}".to_string()))
        },
    )
    .unwrap();
    let result = at(&v, "result");
    assert!(matches!(at(result, "isError"), Json::Bool(false)));
    let content = match at(result, "content") {
        Json::Array(items) => &items[0],
        _ => panic!(),
    };
    assert_eq!(text(at(content, "text")), Some("{\"eqEnabled\":true}"));
    assert!(matches!(at(at(result, "structuredContent"), "eqEnabled"), Json::Bool(true)));
}

#[test]
fn unknown_methods_and_versions() {
    let v = call(obj(vec![("jsonrpc", s("2.0")), ("id", n(4)), ("method", s("resources/list"))]), |_, _| panic!()).unwrap();
    assert_eq!(text(at(at(&v, "error"), "message")), Some("Unknown method"));
    let w = call(
        obj(vec![("jsonrpc", s("2.0")), ("id", n(5)), ("method", s("initialize")), ("params", obj(vec![("protocolVersion", s("1999-01-01"))]))]),
        |_, _| panic!(),
    )
    .unwrap();
    assert_eq!(text(at(at(&w, "result"), "protocolVersion")), Some("2025-11-25"));
    let bad = call(obj(vec![("jsonrpc", s("1.0")), ("id", n(6)), ("method", s("ping"))]), |_, _| panic!()).unwrap();
    assert!(matches!(at(&bad, "id"), Json::Null));
}

#[test]
fn schema_messages_name_the_path() {
    assert_eq!(chk("set_preamp", obj(vec![("profile", s("music"))])).unwrap_err(), "arguments.gainDb: required");
    assert_eq!(chk("set_eq", obj(vec![("enabled", s("no"))])).unwrap_err(), "arguments.enabled: incorrect value type");
    assert_eq!(chk("get_status", obj(vec![("path", s("x"))])).unwrap_err(), "arguments.path: unsupported argument");
    assert_eq!(chk("get_profile", obj(vec![("profile", s(""))])).unwrap_err(), "arguments.profile: invalid text length");
    assert_eq!(chk("add_filter", obj(vec![("profile", s("m")), ("kind", s("XX")), ("frequency", n(100)), ("gain", n(1)), ("q", n(1))])).unwrap_err(), "arguments.kind: unsupported value");
    assert_eq!(chk("shell", obj(vec![])).unwrap_err(), "Unknown tool");
}

#[test]
fn profiles_resolve_by_id_or_unique_name() {
    let db = ananda_control::model::defaults(
        "Preamp: -5.5 dB\nFilter 1: ON PK Fc 100 Hz Gain 5 dB Q 1\n",
        "Preamp: -6.5 dB\nFilter 1: ON PK Fc 100 Hz Gain 7 dB Q 1\n",
        "Preamp: -4 dB\n",
        "Preamp: -3 dB\n",
    )
    .unwrap();
    assert_eq!(resolve(&db, &"movies".to_string()), Ok(1));
    assert_eq!(resolve(&db, &"GAMING".to_string()), Ok(2));
    assert_eq!(resolve(&db, &"nothing".to_string()), Err("Profile not found; use list_profiles".to_string()));
    let mut twice = db.clone();
    twice.profiles[3].name = "Gaming".into();
    assert_eq!(resolve(&twice, &"gaming ".trim().to_string()), Ok(2));
    assert_eq!(resolve(&twice, &"Gaming".to_string()), Err("Ambiguous profile name; use its ID".to_string()));
}

#[test]
fn bridge_messages() {
    let request = obj(vec![("token", s("abc")), ("name", s("get_status"))]);
    assert!(is_authorized(&request, &"abc".to_string()));
    assert!(!is_authorized(&request, &"abd".to_string()));
    assert!(!is_authorized(&obj(vec![]), &"".to_string()));
    let failed = bridge_response_json(Err("Locked file".into()));
    assert!(matches!(bridge_reply(&failed), Err(e) if e == "Locked file"));
    let ok = bridge_response_json(Ok(n(3)));
    assert!(matches!(bridge_reply(&ok), Ok(Json::Number(d)) if d.units == 3 * 1_000_000_000_000_000_000));
    let bad = invalid_json_reply();
    assert_eq!(text(at(&bad, "jsonrpc")), Some("2.0"));
    assert!(matches!(at(&bad, "id"), Json::Null));
    assert_eq!(text(at(at(&bad, "error"), "message")), Some("Invalid JSON"));
    assert!(matches!(at(at(&bad, "error"), "code"), Json::Number(d) if d.units == -32700 * 1_000_000_000_000_000_000));
}

#[test]
fn framing_keeps_the_newline_and_decodes() {
    assert_eq!(ananda_control::agent::line(&b"{\"a\":1}\nrest"[..]), Ok("{\"a\":1}\n".to_string()));
    assert_eq!(ananda_control::agent::line("é\n".as_bytes()), Ok("é\n".to_string()));
    assert!(ananda_control::agent::line(&[0xffu8, b'\n'][..]).is_err());
    assert_eq!(ananda_control::agent::line(&b""[..]), Err("Missing newline or message exceeds 2 MiB".to_string()));
}

fn keys(j: &Json) -> Vec<String> {
    match j {
        Json::Object(ms) => ms.iter().map(|m| m.key.clone()).collect(),
        _ => vec![],
    }
}

#[test]
fn settings_patches_replace_values_and_merge_hotkeys() {
    let base = obj(vec![
        ("theme", s("dark")),
        ("shortcuts", obj(vec![("toggle", s("Ctrl+1")), ("open", s("Ctrl+2"))])),
        ("agentControl", Json::Bool(false)),
    ]);
    let changes = obj(vec![
        ("theme", s("light")),
        ("shortcuts", obj(vec![("open", s("Ctrl+9")), ("quick", s("Ctrl+3"))])),
        ("startMinimized", Json::Bool(true)),
    ]);
    let r = patch_settings(base, &changes);
    assert_eq!(keys(&r), vec!["theme", "shortcuts", "agentControl", "startMinimized"]);
    assert_eq!(text(at(&r, "theme")), Some("light"));
    assert!(matches!(at(&r, "agentControl"), Json::Bool(false)));
    assert!(matches!(at(&r, "startMinimized"), Json::Bool(true)));
    let hotkeys = at(&r, "shortcuts");
    assert_eq!(keys(hotkeys), vec!["toggle", "open", "quick"]);
    assert_eq!(text(at(hotkeys, "toggle")), Some("Ctrl+1"));
    assert_eq!(text(at(hotkeys, "open")), Some("Ctrl+9"));
    assert_eq!(text(at(hotkeys, "quick")), Some("Ctrl+3"));
}

#[test]
fn settings_patch_adds_hotkeys_where_none_were_stored() {
    let base = obj(vec![("theme", s("dark"))]);
    let changes = obj(vec![("shortcuts", obj(vec![("toggle", s("Ctrl+T"))]))]);
    let r = patch_settings(base, &changes);
    assert_eq!(keys(&r), vec!["theme", "shortcuts"]);
    assert_eq!(text(at(at(&r, "shortcuts"), "toggle")), Some("Ctrl+T"));
}

#[test]
fn admitted_settings_patches_keep_agent_control() {
    let args = obj(vec![("notifications", Json::Bool(false))]);
    assert!(chk("update_settings", obj(vec![("notifications", Json::Bool(false))])).is_ok());
    let base = obj(vec![("agentControl", Json::Bool(false)), ("notifications", Json::Bool(true))]);
    let r = patch_settings(base, &args);
    assert!(matches!(at(&r, "agentControl"), Json::Bool(false)));
    assert!(matches!(at(&r, "notifications"), Json::Bool(false)));
}
