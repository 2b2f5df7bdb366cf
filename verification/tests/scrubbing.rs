use quizface::interpret_raw_output;
use quizface::utils::scrubbing::{scrub_arguments, scrub_response};

fn scrubbed(rpc_name: &str, result_data: &str) -> String {
    scrub_response(rpc_name.to_string(), result_data.to_string())
}

#[test]
fn scrub_response_unlisted_command_loses_line_end_ellipses() {
    assert_eq!(
        scrubbed("getinfo", "[\n  \"a\", ...\n  \"b\",...\n  \"c\" ...\n]"),
        "[\n  \"a\"  \"b\"  \"c\" ...\n]"
    );
}

#[test]
fn scrub_response_unlisted_command_keeps_clean_text() {
    let clean = "{\n  \"version\": xxxxx,  (numeric) the server version\n}";
    assert_eq!(scrubbed("getinfo", clean), clean);
    assert_eq!(scrubbed("", clean), clean);
}

#[test]
fn scrub_response_listed_command_does_not_get_the_ellipsis_repairs() {
    assert_eq!(scrubbed("listunspent", "a, ...\n"), "a, ...\n");
}

#[test]
fn scrub_response_listunspent_spells_out_boolean() {
    assert_eq!(
        scrubbed("listunspent", "\"generated\" : true|false  (bool) true if coinbase\n\"spendable\" : x (bool) y"),
        "\"generated\" : true|false  (boolean) true if coinbase\n\"spendable\" : x (boolean) y"
    );
    assert_eq!(scrubbed("listunspent", "(boolean) bool"), "(boolean) bool");
}

#[test]
fn scrub_response_is_by_command() {
    assert_eq!(scrubbed("getaddressmempool", "(number) (bool)"), "(numeric) (bool)");
    assert_eq!(scrubbed("listunspent", "(number) (bool)"), "(number) (boolean)");
    assert_eq!(scrubbed("Listunspent", "(number) (bool)"), "(number) (bool)");
}

#[test]
fn scrub_response_repairs_are_made_in_turn() {
    assert_eq!(
        scrubbed("getspentinfo", "  \"index\" : (number)  ,...\n}"),
        "  \"index\" : (numeric)}"
    );
    assert_eq!(
        scrubbed("getblockdeltas", "hex string / hexstring / hexadecimal"),
        "hexadecimal / hexadecimal / hexadecimal"
    );
    assert_eq!(
        scrubbed("z_listunspent", "\"jsindex\" (sprout) : n,\n\"outindex\" (sapling) : n,"),
        "\"jsindex\": <sprout> n,\n\"outindex\": <sapling> n,"
    );
    assert_eq!(
        scrubbed("z_listreceivedbyaddress", "\"jsindex\" (sprout) : n,\n\"outindex\" (sapling) : n,"),
        "\"jsindex\": n, <sprout> \n\"outindex\": n, <sapling> "
    );
}

#[test]
fn scrub_response_matches_are_taken_from_the_left_without_overlap() {
    assert_eq!(scrubbed("getaddressmempool", "numbernumber"), "numericnumeric");
    assert_eq!(scrubbed("getaddressmempool", "numbenumber"), "numbenumeric");
    assert_eq!(scrubbed("z_validateaddress", "[sprout][sprout]sapling]"), "<sprout><sprout>sapling]");
}

#[test]
fn scrub_response_magic_bean_version_goes() {
    for rpc_name in ["getdeprecationinfo", "getnetworkinfo", "getpeerinfo"] {
        assert_eq!(
            scrubbed(rpc_name, "\"subversion\": \"/MagicBean:x.y.z[-v]/\",  (string) the version"),
            "\"subversion\": \"/MagicBean/\",  (string) the version"
        );
    }
}

#[test]
fn scrub_response_getblockchaininfo_spells_out_reject() {
    let raw = "  \"verificationprogress\": xxxx, (numeric) estimate of verification progress [0..1]\n        \"reject\": { ... }      (object) progress toward rejecting pre-softfork blocks (same fields as \"enforce\")\n";
    let expected = "  \"verificationprogress\": xxxx, (numeric) estimate of verification progress \n        \"reject\": {\n\"status\": (boolean)\n\"found\": (numeric)\n\"required\": (numeric)\n\"window\": (numeric)\n} \n";
    assert_eq!(scrubbed("getblockchaininfo", raw), expected);
}

#[test]
fn scrub_response_generate_turns_array_into_lines() {
    assert_eq!(
        scrubbed("generate", "[ blockhashes ]     (array) hashes of blocks generated"),
        "[\nblockhashes     (string) hashes of blocks generated\n]"
    );
}

#[test]
fn scrub_response_listtransactions_drops_continuation_lines() {
    let indent = " ".repeat(41);
    let raw = format!(
        "[\n  {{\n    \"account\":\"accountname\",       (string) DEPRECATED.\n{}It will be \"\" for the default account.\n    \"amount\": x.xxx,          (numeric) The amount\r\n{}in ZEC\n  }}\n]",
        indent, indent
    );
    assert_eq!(
        scrubbed("listtransactions", &raw),
        "[\n  {\n    \"account\":\"accountname\",       (string) DEPRECATED.\n    \"amount\": x.xxx,          (numeric) The amount\n  }\n]\n"
    );
}

#[test]
fn scrub_response_listtransactions_keeps_shorter_indentation() {
    let raw = format!("{}x\n\n{}y", " ".repeat(40), " ".repeat(42));
    assert_eq!(
        scrubbed("listtransactions", &raw),
        format!("{}x\n\n", " ".repeat(40))
    );
    assert_eq!(scrubbed("listtransactions", ""), "");
}

#[test]
fn scrub_response_makes_getblockchaininfo_fragment_readable() {
    let result = "{\n  \"verificationprogress\": xxxx, (numeric) estimate of verification progress [0..1]\n}";
    let help = |result: &str| format!("getblockchaininfo\n\nResult:\n{}\n\nExamples:\n", result);
    assert!(interpret_raw_output(&help(result)).is_err());
    assert_eq!(
        interpret_raw_output(&help(&scrubbed("getblockchaininfo", result))),
        Ok(r#"{"verificationprogress":"Decimal"}"#.to_string())
    );
}

#[test]
fn scrub_response_twice_is_once_on_repaired_text() {
    for (rpc_name, raw) in [
        ("listunspent", "(bool) (bool(bool)) ((bool)"),
        ("getaddressmempool", "number numbernumber numnumberber"),
        ("z_validateaddress", "[sprout] [sapling] [[sprout]sapling]"),
        ("getblockdeltas", "hex string hexstring hex hexstringstring"),
        ("getblockhashes", "hexhex stringstring"),
        ("z_listunspent", " (sprout)  (sprout) : n, (sapling) : n, : n,"),
        ("getinfo", "a, ...\nb,...\nc"),
    ] {
        let once = scrubbed(rpc_name, raw);
        assert_eq!(scrubbed(rpc_name, &once), once);
    }
}

#[test]
fn scrub_response_listtransactions_twice_is_once() {
    let raw = format!(
        "[\n  \"amount\": x.xxx,   (numeric) The amount\r\n{}in ZEC\n\n]",
        " ".repeat(41)
    );
    let once = scrubbed("listtransactions", &raw);
    assert_eq!(once, "[\n  \"amount\": x.xxx,   (numeric) The amount\n\n]\n");
    assert_eq!(scrubbed("listtransactions", &once), once);
}

#[test]
fn scrub_response_listtransactions_takes_every_trailing_carriage_return_off() {
    let once = scrubbed("listtransactions", "a\r\r\nb\r");
    assert_eq!(once, "a\nb\n");
    assert_eq!(scrubbed("listtransactions", &once), once);
    assert_eq!(scrubbed("listtransactions", "a\rb\r\r\r"), "a\rb\n");
}

#[test]
fn scrub_response_spells_out_boolean_once() {
    for rpc_name in ["listreceivedbyaccount", "listreceivedbyaddress"] {
        let once = scrubbed(rpc_name, "\"ok\": true, (bool) flag");
        assert_eq!(once, "\"ok\": true, (boolean) flag");
        assert_eq!(scrubbed(rpc_name, &once), once);
        assert_eq!(
            scrubbed(rpc_name, "(bool) (boolean) bool  ,...\nboolean"),
            "(boolean) (boolean) booleanboolean"
        );
    }
}

#[test]
fn scrub_response_makes_passes_until_nothing_changes() {
    assert_eq!(scrubbed("getinfo", ", ., ...\n..\n"), "");
    assert_eq!(scrubbed("getinfo", "a,.,.,...\n..\n..\nb"), "ab");
    assert_eq!(
        scrubbed("getpeerinfo", "MagicBeanMagicBean:x.y.z[-v]:x.y.z[-v]"),
        "MagicBeanMagicBean"
    );
    assert_eq!(scrubbed("getspentinfo", "num  ,...\nber"), "numeric");
    assert_eq!(
        scrubbed("z_listreceivedbyaddress", " (sprout)  (sprout) : n,"),
        ": n, <sprout>  <sprout> "
    );
}

#[test]
fn scrub_response_twice_is_once() {
    let texts = [
        "",
        "\"ok\": true, (bool) flag",
        "(bool) (bool(bool)) ((bool) boolean booleanean boolbool",
        "number numbernumber numnumberber num  ,...\nber",
        "[sprout] [sapling] [[sprout]sapling]",
        "hex string hexstring hex hexstringstring hexhex stringstring",
        " (sprout)  (sprout) : n, (sapling) : n, : n, (sapling)  (sapling) : n,",
        "a, ...\nb,...\nc, ., ...\n..\n  ,.  ,...\n..\n",
        "MagicBeanMagicBean:x.y.z[-v]:x.y.z[-v] MagicBean:x.y.z[-v]",
        "[0..1] [0.[0..1].1] { ... }      (object) progress toward rejecting pre-softfork blocks (same fields as \"enforce\")",
        "a\r\r\nb\r\n                                         c\r\r\r",
        "[ blockhashes ]     (array) hashes of blocks generated ,... , ...",
    ];
    let commands = [
        "listunspent",
        "getaddressmempool",
        "z_validateaddress",
        "getblockdeltas",
        "getblockhashes",
        "z_listunspent",
        "z_listreceivedbyaddress",
        "verifytxoutproof",
        "generate",
        "getblockheader",
        "getrawmempool",
        "z_getoperationresult",
        "z_getoperationstatus",
        "getchaintips",
        "getblockchaininfo",
        "getdeprecationinfo",
        "getnetworkinfo",
        "getpeerinfo",
        "getspentinfo",
        "gettransaction",
        "listaccounts",
        "listreceivedbyaccount",
        "listreceivedbyaddress",
        "getblocktemplate",
        "listtransactions",
        "getinfo",
    ];
    for rpc_name in commands {
        for raw in texts {
            let once = scrubbed(rpc_name, raw);
            assert_eq!(scrubbed(rpc_name, &once), once, "{} on {:?}", rpc_name, raw);
            let arguments = scrub_arguments(rpc_name, raw.to_string());
            assert_eq!(scrub_arguments(rpc_name, arguments.clone()), arguments);
        }
    }
}

#[test]
fn scrub_response_settles_on_what_one_pass_repairs() {
    for (rpc_name, raw, repaired) in [
        ("listunspent", "(bool)", "(boolean)"),
        ("getaddressmempool", "(number)", "(numeric)"),
        ("z_validateaddress", "[sprout]", "<sprout>"),
        ("getblockdeltas", "hexstring", "hexadecimal"),
        ("z_listunspent", " (sapling) : n,", ": <sapling> n,"),
        ("z_listreceivedbyaddress", " (sapling) : n,", ": n, <sapling> "),
        ("getchaintips", "\"height\": xxxx,\n", "\"height\": xxxx,         (numeric) height of the chain tip\n"),
        ("getblockchaininfo", "x [0..1]", "x "),
        ("getnetworkinfo", "MagicBean:x.y.z[-v]", "MagicBean"),
        ("getspentinfo", "(number)  ,...\n", "(numeric)"),
        ("gettransaction", "a,... b, ...", "a b"),
        ("listaccounts", "a  ...\nb", "ab"),
        ("listreceivedbyaccount", "(bool)  ,...\n", "(boolean)"),
        ("getblocktemplate", "a,...", "a"),
        ("getinfo", "a, ...\n", "a"),
    ] {
        assert_eq!(scrubbed(rpc_name, raw), repaired, "{}", rpc_name);
    }
}

#[test]
fn scrub_arguments_spells_out_boolean() {
    for rpc_name in [
        "getbalance",
        "getreceivedbyaccount",
        "getreceivedbyaddress",
        "gettransaction",
        "listaccounts",
        "listreceivedbyaccount",
        "listreceivedbyaddress",
        "listsinceblock",
        "listtransactions",
        "z_getbalance",
        "z_gettotalbalance",
        "z_listaddresses",
        "z_listunspent",
    ] {
        assert_eq!(
            scrub_arguments(rpc_name, "3. includeWatchonly (bool, optional, default=false)".to_string()),
            "3. includeWatchonly (boolean, optional, default=false)"
        );
    }
}

#[test]
fn scrub_arguments_unlisted_command_keeps_text() {
    let text = "1. \"x\" (bool, optional), ...\n(/netmask)";
    assert_eq!(scrub_arguments("getinfo", text.to_string()), text);
    assert_eq!(scrub_arguments("", text.to_string()), text);
}

#[test]
fn scrub_arguments_setban_loses_netmask() {
    assert_eq!(
        scrub_arguments("setban", "1. \"ip(/netmask)\" (string, required) The IP/Subnet".to_string()),
        "1. \"ip\" (string, required) The IP/Subnet"
    );
}

#[test]
fn scrub_arguments_getaddressbalance_repairs_the_key() {
    assert_eq!(
        scrub_arguments(
            "getaddressbalance",
            "{\n  \"addresses:\"\n    [\n      \"address\"  (string) The base58check encoded address\n      ,...\n    ]\n}".to_string()
        ),
        "{\n  \"addresses\":\n    [\n      \"address\"  (string) The base58check encoded address\n      \n    ]\n}"
    );
}

#[test]
fn scrub_arguments_operation_ids_become_an_array() {
    let raw = "\n1. \"operationid\"         (array, optional) A list of operation ids we are interested in.  If not provided, examine all operations known to the node.";
    let expected = "[\n        (string, optional)\n        ]\n            A list of operation ids we are interested in.  If not provided, examine all operations known to the node.";
    assert_eq!(scrub_arguments("z_getoperationresult", raw.to_string()), expected);
    assert_eq!(scrub_arguments("z_getoperationstatus", raw.to_string()), expected);
    assert_eq!(scrub_arguments("z_getoperation", raw.to_string()), raw);
}
