use blastcap::sharpify::{
    bindings, constants_files, client_interface, client_interface_checked, client_poll, client_poll_checked, constants, constants_checked,
    csharp_gen_conv, csharp_gen_de_conv, csharp_type, csharp_type_of,
    ffi_type, is_rust_prim, rust_convert_arg, rust_gen_type, rust_poll_pre, rust_poll_suf,
    rust_type, Fields, Variant,
};

fn s(x: &str) -> String {
    x.to_string()
}

#[test]
fn csharp_names_of_rust_types() {
    assert_eq!(csharp_type("String"), "string");
    assert_eq!(csharp_type(" i8 "), "sbyte");
    assert_eq!(csharp_type("u64"), "UInt64");
    assert_eq!(csharp_type("f32"), "float");
    assert_eq!(csharp_type("Vec < String >"), "List<string>");
    assert_eq!(
        csharp_type("Vec < Vec < u8 > >"), "List<List<byte>>"
    );
    assert_eq!(
        csharp_type("HashMap < String , u64 >"), "Dictionary<string, UInt64>"
    );
    if usize::BITS == 64 {
        assert_eq!(csharp_type("usize"), "UInt64");
        assert_eq!(csharp_type("isize"), "Int64");
    }
}

#[test]
fn csharp_names_missing() {
    assert_eq!(csharp_type_of("Vec3"), None);
    assert_eq!(csharp_type_of("(u8, u8)"), None);
    assert_eq!(csharp_type_of("Vec < >"), None);
    assert_eq!(csharp_type_of("Vec < Vec3 >"), None);
}

#[test]
fn small_generators() {
    assert!(is_rust_prim("bool"));
    assert!(!is_rust_prim("String"));
    assert_eq!(csharp_gen_conv("x", "u8"), "var x_conv = x;");
    assert_eq!(
        csharp_gen_conv("x", "String"),
        "byte[] x_conv = MessagePackSerializer.Serialize(x);\n        UInt32 x_len = (UInt32)x_conv.Length;"
    );
    assert_eq!(
        csharp_gen_de_conv("x", "Vec < u64 >").as_deref(),
        Some("                var x_conv = MessagePackSerializer.Deserialize<List<UInt64>>(x);")
    );
    assert_eq!(csharp_gen_de_conv("x", "Foo"), None);
    assert_eq!(rust_type("u32"), "u32");
    assert_eq!(rust_type("String"), " *const std::ffi::c_char, u32");
    assert_eq!(rust_gen_type("n", "String"), "*const std::ffi::c_char, n_len: u32");
    assert_eq!(rust_convert_arg("n", "u8"), "");
    assert_eq!(
        rust_convert_arg("n", "String"),
        "let n = unsafe { std::slice::from_raw_parts(n as *const u8, n_len as usize) };\n    let n = rmp_serde::from_slice(n).unwrap();\n"
    );
    assert_eq!(rust_poll_pre("a", "u8"), "");
    assert_eq!(
        rust_poll_suf("a", "String"),
        "_ = Vec::from_raw_parts(a as *mut i8, a_len as usize, a_size);"
    );
    assert_eq!(ffi_type(0, "id", "u64"), (0, s("UInt64 id")));
    assert_eq!(
        ffi_type(2, "text", "String"),
        (
            1,
            s("[MarshalAs(UnmanagedType.LPArray, SizeParamIndex=3)] byte[] text, UInt32 text_len")
        )
    );
}

#[test]
fn shared_constants() {
    let cs = vec![(s("usize"), s("TILES_PER_SECOND"), s("4"))];
    let out = constants(&cs);
    if usize::BITS == 64 {
        assert_eq!(
            out,
            "using System;\nstatic class Constants {\n    public const UInt64 TILES_PER_SECOND = 4;\n}"
        );
    }
    assert_eq!(constants_checked(&vec![(s("Vec3"), s("X"), s("1"))]), None);
    assert_eq!(constants(&Vec::new()), "using System;\nstatic class Constants {\n}");
}

fn requests() -> Vec<Variant> {
    vec![
        Variant { name: s("Ping"), fields: Fields::Unit },
        Variant { name: s("ChatMessage"), fields: Fields::Unnamed(vec![s("String")]) },
        Variant {
            name: s("UseCard"),
            fields: Fields::Named(vec![(s("card"), s("usize")), (s("x"), s("i64"))]),
        },
    ]
}

#[test]
fn send_functions() {
    let (cs, rs) = client_interface(&requests());
    assert!(cs.starts_with(
        "using System;\nusing MessagePack;\nusing System.Runtime.InteropServices;\n\npublic partial class NetworkClient {\npublic void SendPing() {"
    ));
    assert!(cs.ends_with("}\n}"));
    assert!(cs.contains("public void SendChatMessage(string arg0) {"));
    assert!(cs.contains(
        "static extern void client_send_chat_message(void* ptr, [MarshalAs(UnmanagedType.LPArray, SizeParamIndex=1)] byte[] arg0, UInt32 arg0_len);"
    ));
    assert!(cs.contains("client_send_chat_message(this._inner, arg0_conv, arg0_len);"));
    assert!(cs.contains("client_send_use_card(this._inner, card, x);"));
    assert!(rs.contains(
        "pub unsafe extern \"C\" fn client_send_chat_message(client: *mut ClientHandle, arg0: *const std::ffi::c_char, arg0_len: u32) {"
    ));
    assert!(rs.contains(".send_blocking(ClientRequest::ChatMessage(arg0))"));
    assert!(rs.contains(".send_blocking(ClientRequest::Ping)"));
    assert!(rs.contains(".send_blocking(ClientRequest::UseCard(card, x))"));
}

#[test]
fn send_functions_refuse_unknown_types() {
    let vs = vec![Variant { name: s("Move"), fields: Fields::Unnamed(vec![s("Vec3")]) }];
    assert!(client_interface_checked(&vs).is_none());
    assert!(client_poll_checked(&vs).is_none());
}

fn messages() -> Vec<Variant> {
    vec![
        Variant { name: s("Pong"), fields: Fields::Unit },
        Variant { name: s("NewUser"), fields: Fields::Unnamed(vec![s("u64")]) },
        Variant {
            name: s("MapList"),
            fields: Fields::Named(vec![(s("maps"), s("Vec < String >"))]),
        },
    ]
}

#[test]
fn polling_functions() {
    let (cs, rs) = client_poll(&messages());
    assert!(cs.contains("public delegate void NewUserCallback(UInt64 NewUser_arg0);"));
    assert!(cs.contains("private delegate void MapListCallbackRaw([MarshalAs(UnmanagedType.LPArray, SizeParamIndex=1)] byte[] MapList_maps, UInt32 MapList_maps_len);"));
    assert!(cs.contains("    private PongCallback PongFn;\n"));
    assert!(cs.contains("static extern void client_poll(void* ptr, PongCallbackRaw PongFn, NewUserCallbackRaw NewUserFn, MapListCallbackRaw MapListFn);"));
    assert!(cs.contains("var MapList_maps_conv = MessagePackSerializer.Deserialize<List<string>>(MapList_maps);"));
    assert!(rs.contains("pong_callback: unsafe extern \"C\" fn(), new_user_callback: unsafe extern \"C\" fn(u64), map_list_callback: unsafe extern \"C\" fn( *const std::ffi::c_char, u32), "));
    assert!(rs.contains("ServerMessage::Pong => {\npong_callback();\n\n}\n"));
    assert!(rs.contains("ServerMessage::NewUser(arg0) => {\n\nnew_user_callback(arg0);\n\n\n}\n"));
    assert!(rs.contains("ServerMessage::MapList{ maps } => {\n"));
    assert!(rs.contains("map_list_callback(maps, maps_len);\n"));
}

#[test]
fn bindings_from_source() {
    let src = "pub enum ClientRequest { Ping, ChatMessage(String), UseCard { card: usize, x: i64 } }";
    let (poll, calls) = bindings(src).unwrap();
    assert!(poll.is_none());
    assert_eq!(calls, Some(Some(client_interface(&requests()))));
    let bad = "pub enum ServerMessage { Move(Vec3) }";
    let (poll, calls) = bindings(bad).unwrap();
    assert_eq!(poll, Some(None));
    assert!(calls.is_none());
    assert!(bindings("pub enum {").is_none());
}

#[test]
fn constants_from_root_source() {
    let src = "constants! { mod shared { pub const SPEED: u8 = 4; } }\nfn main() {}";
    let texts = constants_files(src).unwrap();
    assert_eq!(texts.len(), 1);
    assert_eq!(
        texts[0].as_deref(),
        Some("using System;\nstatic class Constants {\n    public const byte SPEED = 4;\n}")
    );
    let negative = "constants! { mod shared { pub const X: i32 = -1; } }";
    assert_eq!(
        constants_files(negative).unwrap()[0].as_deref(),
        Some("using System;\nstatic class Constants {\n    public const Int32 X = -1;\n}")
    );
    let odd = "constants! { mod shared { fn f() {} } }";
    assert_eq!(constants_files(odd).unwrap(), vec![None]);
    assert!(constants_files("fn (").is_none());
}

#[test]
fn poll_callbacks_follow_variant_order() {
    let (_, rs) = client_poll(&messages());
    let pong = rs.find("pong_callback: unsafe extern \"C\" fn(").unwrap();
    let new_user = rs.find("new_user_callback: unsafe extern \"C\" fn(").unwrap();
    let map_list = rs.find("map_list_callback: unsafe extern \"C\" fn(").unwrap();
    assert!(pong < new_user && new_user < map_list);
    let arm_pong = rs.find("ServerMessage::Pong").unwrap();
    let arm_new_user = rs.find("ServerMessage::NewUser").unwrap();
    let arm_map_list = rs.find("ServerMessage::MapList").unwrap();
    assert!(arm_pong < arm_new_user && arm_new_user < arm_map_list);
    assert_eq!(rs.matches("_callback: unsafe extern").count(), 3);
}
