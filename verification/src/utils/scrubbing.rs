//! Repairs of help text before it is read.
//!
//! The help text of some commands strays from the shape that the annotator
//! reads. A repair replaces every occurrence of one piece of text by
//! another; the constants below hold the repairs of each command, in the
//! order in which they are made. The repairs of a command are made in
//! passes, until a pass changes nothing: a repaired text is one that the
//! repairs leave as it is.

use crate::text::{
    from_chars, is_match_at, line_seq, lines, matches_at, push_all, replace, replaced, same_chars,
    same_text, to_chars, views,
};
use vstd::prelude::*;
use vstd::slice::slice_to_vec;

verus! {

/// The repairs of the result of `listunspent`.
pub const LISTUNSPENT: [(&'static str, &'static str); 1] = [
    (
        "(bool)",
        "(boolean)",
    ),
];

/// The repairs of the result of `getaddressmempool`.
pub const GETADDRESSMEMPOOL: [(&'static str, &'static str); 1] = [
    (
        "number",
        "numeric",
    ),
];

/// The repairs of the result of `z_validateaddress`.
pub const Z_VALIDATEADDRESS: [(&'static str, &'static str); 2] = [
    (
        "[sprout]",
        "<sprout>",
    ),
    (
        "[sapling]",
        "<sapling>",
    ),
];

/// The repairs of the result of `getblockdeltas` and `getblockhashes`.
pub const HEX_STRINGS: [(&'static str, &'static str); 2] = [
    (
        "hex string",
        "hexadecimal",
    ),
    (
        "hexstring",
        "hexadecimal",
    ),
];

/// The repairs of the result of `z_listunspent`.
pub const Z_LISTUNSPENT: [(&'static str, &'static str); 2] = [
    (
        " (sprout) : n,",
        ": <sprout> n,",
    ),
    (
        " (sapling) : n,",
        ": <sapling> n,",
    ),
];

/// The repairs of the result of `z_listreceivedbyaddress`.
pub const Z_LISTRECEIVEDBYADDRESS: [(&'static str, &'static str); 2] = [
    (
        " (sprout) : n,",
        ": n, <sprout> ",
    ),
    (
        " (sapling) : n,",
        ": n, <sapling> ",
    ),
];

/// The repairs of the result of `verifytxoutproof`.
pub const VERIFYTXOUTPROOF: [(&'static str, &'static str); 1] = [
    (
        r#"["txid"]      (array, strings) The txid(s) which the proof commits to, or empty array if the proof is invalid"#,
        r#"[
"txid"   (string) The txid(s) which the proof commits to, or empty array if the proof is invalid
]"#,
    ),
];

/// The repairs of the result of `generate`.
pub const GENERATE: [(&'static str, &'static str); 1] = [
    (
        "[ blockhashes ]     (array) hashes of blocks generated",
        r#"[
blockhashes     (string) hashes of blocks generated
]"#,
    ),
];

/// The repairs of the result of `getblockheader`.
pub const GETBLOCKHEADER: [(&'static str, &'static str); 1] = [
    (
        r#"Result (for verbose = true):
{
  "hash" : "hash",     (string) the block hash (same as provided)
  "confirmations" : n,   (numeric) The number of confirmations, or -1 if the block is not on the main chain
  "height" : n,          (numeric) The block height or index
  "version" : n,         (numeric) The block version
  "merkleroot" : "xxxx", (string) The merkle root
  "finalsaplingroot" : "xxxx", (string) The root of the Sapling commitment tree after applying this block
  "time" : ttt,          (numeric) The block time in seconds since epoch (Jan 1 1970 GMT)
  "nonce" : n,           (numeric) The nonce
  "bits" : "1d00ffff", (string) The bits
  "difficulty" : x.xxx,  (numeric) The difficulty
  "previousblockhash" : "hash",  (string) The hash of the previous block
  "nextblockhash" : "hash"       (string) The hash of the next block
}

Result (for verbose=false):
"data"             (string) A string that is serialized, hex-encoded data for block 'hash'."#,
        r#"Result:
"data"             (string) A string that is serialized, hex-encoded data for block 'hash'.

"Result:
{
  "hash" : "hash",     (string) the block hash (same as provided)
  "confirmations" : n,   (numeric) The number of confirmations, or -1 if the block is not on the main chain
  "height" : n,          (numeric) The block height or index
  "version" : n,         (numeric) The block version
  "merkleroot" : "xxxx", (string) The merkle root
  "finalsaplingroot" : "xxxx", (string) The root of the Sapling commitment tree after applying this block
  "time" : ttt,          (numeric) The block time in seconds since epoch (Jan 1 1970 GMT)
  "nonce" : n,           (numeric) The nonce
  "bits" : "1d00ffff", (string) The bits
  "difficulty" : x.xxx,  (numeric) The difficulty
  "previousblockhash" : "hash",  (string) The hash of the previous block
  "nextblockhash" : "hash"       (string) The hash of the next block
}"#,
    ),
];

/// The repairs of the result of `getrawmempool`.
pub const GETRAWMEMPOOL: [(&'static str, &'static str); 1] = [
    (
        r#"Result: (for verbose = false):
[                     (json array of string)
  "transactionid"     (string) The transaction id
  ,...
]

Result: (for verbose = true):
{                           (json object)
  "transactionid" : {       (json object)
    "size" : n,             (numeric) transaction size in bytes
    "fee" : n,              (numeric) transaction fee in ZEC
    "time" : n,             (numeric) local time transaction entered pool in seconds since 1 Jan 1970 GMT
    "height" : n,           (numeric) block height when transaction entered pool
    "startingpriority" : n, (numeric) priority when transaction entered pool
    "currentpriority" : n,  (numeric) transaction priority now
    "depends" : [           (array) unconfirmed transactions used as inputs for this transaction
        "transactionid",    (string) parent transaction id
       ... ]
  }, ...
}"#,
        r#"Result:
[                     
  "transactionid"     (string) The transaction id
]

Result:
{
  "transactionid" : {
    "size" : n,             (numeric) transaction size in bytes
    "fee" : n,              (numeric) transaction fee in ZEC
    "time" : n,             (numeric) local time transaction entered pool in seconds since 1 Jan 1970 GMT
    "height" : n,           (numeric) block height when transaction entered pool
    "startingpriority" : n, (numeric) priority when transaction entered pool
    "currentpriority" : n,  (numeric) transaction priority now
    "depends" : [
        "transactionid",    (string) parent transaction id
        ]
  }
}"#,
    ),
];

/// The repairs of the result of `z_getoperationresult`.
pub const Z_GETOPERATIONRESULT: [(&'static str, &'static str); 1] = [
    (
        r#""    [object, ...]"      (array) A list of JSON objects"#,
        r#"[
[
  {
    "id":    (string)
    "status":    (string)
    "creation_time":    (numeric)
    "method":    (string)
    "params": {
      "fromaddress":    (string)
      "amounts": [
        {
          "address":    (string)
          "amount":    (numeric)
        }
      ]
      "minconf":    (numeric)
      "fee":    (numeric)
    }
  },
  {
    "id":    (string)
    "status":    (string)
    "creation_time":     (numeric)
    "result": {
      "txid":    (hexadecimal)
    }
    "execution_secs": (numeric)
    "method":    (string)
    "params": {
      "fromaddress":    (string)
      "amounts": [
        {
          "address":    (string)
          "amount":    (numeric)
        }
      ]
      "minconf":    (numeric)
      "fee":    (numeric)
    }
  },
  {
    "id":    (string)
    "status":    (string)
    "creation_time":    (numeric)
    "error": {
      "code":    (numeric)
      "message":    (string)
    }
    "method":     (string)
    "params": {
      "fromaddress":    (string)
      "amounts": [
        {
          "address":    (string)
          "amount":    (numeric)
        }
      ]
      "minconf":    (numeric)
      "fee":    (numeric)
    }
  }
]

]"#,
    ),
];

/// The repairs of the result of `z_getoperationstatus`.
pub const Z_GETOPERATIONSTATUS: [(&'static str, &'static str); 1] = [
    (
        r#""    [object, ...]"      (array) A list of JSON objects"#,
        r#"[
[
  {
    "id":    (string)
    "status":    (string)
    "creation_time":    (numeric)
    "method":    (string)
    "params": {
      "fromaddress":    (string)
      "amounts": [
        {
          "address":    (string)
          "amount":    (numeric)
        }
      ]
      "minconf":    (numeric)
      "fee":    (numeric)
    }
  },
  {
    "id":    (string)
    "status":    (string)
    "creation_time":     (numeric)
    "result": {
      "txid":    (hexadecimal)
    }
    "execution_secs": (numeric)
    "method":    (string)
    "params": {
      "fromaddress":    (string)
      "amounts": [
        {
          "address":    (string)
          "amount":    (numeric)
        }
      ]
      "minconf":    (numeric)
      "fee":    (numeric)
    }
  },
{
    "id":    (string)
    "status":    (string)
    "creation_time":    (numeric)
    "error": {
      "code":    (numeric)
      "message":    (string)
    }
    "method":     (string)
    "params": {
      "fromaddress":    (string)
      "amounts": [
        {
          "address":    (string)
          "amount":    (numeric)
        }
      ]
      "minconf":    (numeric)
      "fee":    (numeric)
    }
  }
]

]"#,
    ),
];

/// The repairs of the result of `getchaintips`.
pub const GETCHAINTIPS: [(&'static str, &'static str); 4] = [
    (
        r#",
  {
    "height": xxxx,
    "hash": "xxxx",
    "branchlen": 1          (numeric) length of branch connecting the tip to the main chain
    "status": "xxxx"        (string) status of the chain (active, valid-fork, valid-headers, headers-only, invalid)
  }"#,
        "",
    ),
    (
        r#"Possible values for status:
1.  "invalid"               This branch contains at least one invalid block
2.  "headers-only"          Not all blocks for this branch are available, but the headers are valid
3.  "valid-headers"         All blocks are available for this branch, but they were never fully validated
4.  "valid-fork"            This branch is not part of the active chain, but is fully validated
5.  "active"                This is the tip of the active main chain, which is certainly valid"#,
        "",
    ),
    (
        r#""height": xxxx,
"#,
        r#""height": xxxx,         (numeric) height of the chain tip
"#,
    ),
    (
        r#""hash": "xxxx",
"#,
        r#""hash": "xxxx",         (string) block hash of the tip
"#,
    ),
];

/// The repairs of the result of `getblockchaininfo`.
pub const GETBLOCKCHAININFO: [(&'static str, &'static str); 3] = [
    (
        "[0..1]",
        "",
    ),
    (
        "{ ... }      (object) progress toward rejecting pre-softfork blocks",
        r#"{
"status": (boolean)
"found": (numeric)
"required": (numeric)
"window": (numeric)
}"#,
    ),
    (
        r#"(same fields as "enforce")"#,
        "",
    ),
];

/// The repairs of the result of `getdeprecationinfo`, `getnetworkinfo` and
/// `getpeerinfo`.
pub const MAGIC_BEAN: [(&'static str, &'static str); 1] = [
    (
        "MagicBean:x.y.z[-v]",
        "MagicBean",
    ),
];

/// The repairs of the result of `getspentinfo`.
pub const GETSPENTINFO: [(&'static str, &'static str); 2] = [
    (
        "number",
        "numeric",
    ),
    (
        r#"  ,...
"#,
        "",
    ),
];

/// The repairs of the result of `gettransaction`.
pub const GETTRANSACTION: [(&'static str, &'static str); 3] = [
    (
        r#"      "nullifiers" : [ string, ... ]      (string) Nullifiers of input notes
      "commitments" : [ string, ... ]     (string) Note commitments for note outputs
      "macs" : [ string, ... ]            (string) Message authentication tags"#,
        r#""nullifiers": [
        "nullifier" (string)
    ],
    "commitments": [
        "commitment" (string)
    ],
    "macs": [
        "mac" (string)
    ],"#,
    ),
    (
        ",...",
        "",
    ),
    (
        ", ...",
        "",
    ),
];

/// The repairs of the result of `listaccounts`.
pub const LISTACCOUNTS: [(&'static str, &'static str); 2] = [
    (
        "                      (json object where keys are account names, and values are numeric balances",
        "",
    ),
    (
        r#"  ...
"#,
        "",
    ),
];

/// The repairs of the result of `listreceivedbyaccount` and
/// `listreceivedbyaddress`. A `bool` becomes `boolean`; a `boolean` that
/// stands there already is cut back to `bool` first, so that what was
/// written once is not lengthened again.
pub const LISTRECEIVED: [(&'static str, &'static str); 3] = [
    (
        "boolean",
        "bool",
    ),
    (
        "bool",
        "boolean",
    ),
    (
        r#"  ,...
"#,
        "",
    ),
];

/// The repairs of the result of `getblocktemplate`.
pub const GETBLOCKTEMPLATE: [(&'static str, &'static str); 2] = [
    (
        "{ ... },           (json object) information for coinbase transaction",
        r#"{     (json object) information for coinbase transaction
            "data":    (hexadecimal)
            "hash":    (hexadecimal)
            "depends":    [
            (numeric)
            ]
            "fee":    (numeric)
            "foundersreward":    (numeric)
            "sigops":    (numeric)
            "required":    (boolean)
            }"#,
    ),
    (
        ",...",
        "",
    ),
];

/// The repairs of the result of a command that has none of its own: an
/// ellipsis at the end of a line goes.
pub const ELLIPSIS: [(&'static str, &'static str); 2] = [(", ...\n", ""), (",...\n", "")];

/// The indentation of a line that continues the description of the line
/// before it.
pub const CONTINUATION_INDENT: &'static str = "                                         ";

/// The commands whose arguments call a boolean `bool`.
pub const BOOL_ARGUMENT_COMMANDS: [&'static str; 13] = [
    "getbalance",
    "getreceivedbyaccount",
    "getreceivedbyaddress",
    "gettransaction",
    "listaccounts",
    "listreceivedbyaccount",
    "listreceivedbyaddress",
    "listsinceblock",
    "listtransactions",
    "z_getbalance",
    "z_gettotalbalance",
    "z_listaddresses",
    "z_listunspent",
];

/// The repairs of the arguments of the commands that call a boolean `bool`.
/// A `boolean` that stands there already is cut back to `bool` first, so
/// that what was written once is not lengthened again.
pub const ARGUMENT_BOOL: [(&'static str, &'static str); 2] = [
    ("boolean", "bool"),
    ("bool", "boolean"),
];

/// The repairs of the arguments of `z_getoperationresult` and
/// `z_getoperationstatus`.
pub const ARGUMENT_OPERATION_IDS: [(&'static str, &'static str); 1] = [
    (
        r#"
1. "operationid"         (array, optional) A list of operation ids we are interested in.  If not provided, examine all operations known to the node."#,
        r#"[
        (string, optional)
        ]
            A list of operation ids we are interested in.  If not provided, examine all operations known to the node."#,
    ),
];

/// The repairs of the arguments of `z_mergetoaddress`.
pub const ARGUMENT_FROM_ADDRESSES: [(&'static str, &'static str); 1] = [
    (
        r#"(array, required) A JSON array with addresses.
                         The following special strings are accepted inside the array:
                             - "ANY_TADDR":   Merge UTXOs from any taddrs belonging to the wallet.
                             - "ANY_SPROUT":  Merge notes from any Sprout zaddrs belonging to the wallet.
                             - "ANY_SAPLING": Merge notes from any Sapling zaddrs belonging to the wallet.
                         While it is possible to use a variety of different combinations of addresses and the above values,
                         it is not possible to send funds from both sprout and sapling addresses simultaneously. If a special
                         string is given, any given addresses of that type will be counted as duplicates and cause an error.
    [
      "address"          (string) Can be a taddr or a zaddr
      ,...
    ]"#,
        r#"[
    "address"          (string) Can be a taddr or a zaddr
    ]"#,
    ),
];

/// The repairs of the arguments of `z_sendmany`.
pub const ARGUMENT_AMOUNTS: [(&'static str, &'static str); 1] = [
    (
        r#"(array, required) An array of json objects representing the amounts to send.
    [{
      "address":address  (string, required) The address is a taddr or zaddr
      "amount":amount    (numeric, required) The numeric amount in ZEC is the value
      "memo":memo        (string, optional) If the address is a zaddr, raw data represented in hexadecimal string format
    }, ... ]"#,
        r#"[{
      "address":address  (string, required) The address is a taddr or zaddr
      "amount":amount    (numeric, required) The numeric amount in ZEC is the value
      "memo":memo        (string, optional) If the address is a zaddr, raw data represented in hexadecimal string format
    }]"#,
    ),
];

/// The repairs of the arguments of `setban`.
pub const ARGUMENT_SETBAN: [(&'static str, &'static str); 1] = [
    (
        "(/netmask)",
        "",
    ),
];

/// The repairs of the arguments of `getaddressbalance`.
pub const ARGUMENT_GETADDRESSBALANCE: [(&'static str, &'static str); 2] = [
    (
        ",...",
        "",
    ),
    (
        r#""addresses:""#,
        r#""addresses":"#,
    ),
];

/// The texts of a pair of string slices.
pub open spec fn pair_view(pair: (&'static str, &'static str)) -> (Seq<char>, Seq<char>) {
    (pair.0@, pair.1@)
}

/// The texts of a sequence of pairs of string slices.
pub open spec fn pair_views(pairs: Seq<(&'static str, &'static str)>) -> Seq<
    (Seq<char>, Seq<char>),
> {
    Seq::new(pairs.len(), |i: int| pair_view(pairs[i]))
}

/// `name` is one of `names`.
pub open spec fn among(name: Seq<char>, names: Seq<&'static str>) -> bool {
    exists|i: int| 0 <= i < names.len() && (#[trigger] names[i])@ == name
}

/// `text` after each of `repairs` was made in turn.
pub open spec fn repaired(text: Seq<char>, repairs: Seq<(Seq<char>, Seq<char>)>) -> Seq<char>
    decreases repairs.len(),
{
    if repairs.len() == 0 {
        text
    } else {
        let last = repairs.last();
        replaced(repaired(text, repairs.drop_last()), last.0, last.1)
    }
}

/// The repairs of the result of the command `rpc_name`.
pub open spec fn response_repairs(rpc_name: Seq<char>) -> Seq<(Seq<char>, Seq<char>)> {
    if rpc_name == "listunspent"@ {
        pair_views(LISTUNSPENT@)
    } else if rpc_name == "getaddressmempool"@ {
        pair_views(GETADDRESSMEMPOOL@)
    } else if rpc_name == "z_validateaddress"@ {
        pair_views(Z_VALIDATEADDRESS@)
    } else if rpc_name == "getblockdeltas"@ || rpc_name == "getblockhashes"@ {
        pair_views(HEX_STRINGS@)
    } else if rpc_name == "z_listunspent"@ {
        pair_views(Z_LISTUNSPENT@)
    } else if rpc_name == "z_listreceivedbyaddress"@ {
        pair_views(Z_LISTRECEIVEDBYADDRESS@)
    } else if rpc_name == "verifytxoutproof"@ {
        pair_views(VERIFYTXOUTPROOF@)
    } else if rpc_name == "generate"@ {
        pair_views(GENERATE@)
    } else if rpc_name == "getblockheader"@ {
        pair_views(GETBLOCKHEADER@)
    } else if rpc_name == "getrawmempool"@ {
        pair_views(GETRAWMEMPOOL@)
    } else if rpc_name == "z_getoperationresult"@ {
        pair_views(Z_GETOPERATIONRESULT@)
    } else if rpc_name == "z_getoperationstatus"@ {
        pair_views(Z_GETOPERATIONSTATUS@)
    } else if rpc_name == "getchaintips"@ {
        pair_views(GETCHAINTIPS@)
    } else if rpc_name == "getblockchaininfo"@ {
        pair_views(GETBLOCKCHAININFO@)
    } else if rpc_name == "getdeprecationinfo"@ || rpc_name == "getnetworkinfo"@ || rpc_name
        == "getpeerinfo"@ {
        pair_views(MAGIC_BEAN@)
    } else if rpc_name == "getspentinfo"@ {
        pair_views(GETSPENTINFO@)
    } else if rpc_name == "gettransaction"@ {
        pair_views(GETTRANSACTION@)
    } else if rpc_name == "listaccounts"@ {
        pair_views(LISTACCOUNTS@)
    } else if rpc_name == "listreceivedbyaccount"@ || rpc_name == "listreceivedbyaddress"@ {
        pair_views(LISTRECEIVED@)
    } else if rpc_name == "getblocktemplate"@ {
        pair_views(GETBLOCKTEMPLATE@)
    } else {
        pair_views(ELLIPSIS@)
    }
}

/// The repairs of the arguments of the command `rpc_name`; a command that
/// is not named here has none.
pub open spec fn argument_repairs(rpc_name: Seq<char>) -> Seq<(Seq<char>, Seq<char>)> {
    if among(rpc_name, BOOL_ARGUMENT_COMMANDS@) {
        pair_views(ARGUMENT_BOOL@)
    } else if rpc_name == "z_getoperationresult"@ || rpc_name == "z_getoperationstatus"@ {
        pair_views(ARGUMENT_OPERATION_IDS@)
    } else if rpc_name == "z_mergetoaddress"@ {
        pair_views(ARGUMENT_FROM_ADDRESSES@)
    } else if rpc_name == "z_sendmany"@ {
        pair_views(ARGUMENT_AMOUNTS@)
    } else if rpc_name == "setban"@ {
        pair_views(ARGUMENT_SETBAN@)
    } else if rpc_name == "getaddressbalance"@ {
        pair_views(ARGUMENT_GETADDRESSBALANCE@)
    } else {
        Seq::empty()
    }
}

/// A line that only continues the description of the line before it.
pub open spec fn is_continuation(line: Seq<char>) -> bool {
    matches_at(line, CONTINUATION_INDENT@, 0)
}

/// The lines that are no continuation, each followed by a line feed.
pub open spec fn kept_lines(lines: Seq<Seq<char>>) -> Seq<char>
    decreases lines.len(),
{
    if lines.len() == 0 {
        Seq::empty()
    } else if is_continuation(lines.last()) {
        kept_lines(lines.drop_last())
    } else {
        kept_lines(lines.drop_last()) + lines.last() + seq!['\n']
    }
}

/// The part of a help text that is repaired.
#[derive(Clone, Copy, Debug, PartialEq, Eq, Structural)]
pub enum Part {
    Arguments,
    Response,
}

/// The repairs of a part of the help text of the command `rpc_name`.
pub open spec fn repairs_of(rpc_name: Seq<char>, part: Part) -> Seq<(Seq<char>, Seq<char>)> {
    match part {
        Part::Arguments => argument_repairs(rpc_name),
        Part::Response => response_repairs(rpc_name),
    }
}

/// `text` after one pass of the repairs of the command `rpc_name`. The
/// result of `listtransactions` loses its continuation lines; every other
/// text has the repairs of its command made, each once and in turn.
pub open spec fn scrub_pass(rpc_name: Seq<char>, part: Part, text: Seq<char>) -> Seq<char> {
    if part == Part::Response && rpc_name == "listtransactions"@ {
        kept_lines(line_seq(text))
    } else {
        repaired(text, repairs_of(rpc_name, part))
    }
}

/// The first text that a pass leaves as it is, passes being made one after
/// the other from `text` on; `None` where more than `fuel` passes change
/// the text.
pub open spec fn scrub_passes(rpc_name: Seq<char>, part: Part, text: Seq<char>, fuel: nat) -> Option<
    Seq<char>,
>
    decreases fuel,
{
    let next = scrub_pass(rpc_name, part, text);
    if next == text {
        Some(text)
    } else if fuel == 0 {
        None
    } else {
        scrub_passes(rpc_name, part, next, (fuel - 1) as nat)
    }
}

/// The repaired text: passes are made until one changes nothing. Where as
/// many passes as the text has characters have each changed the text, and
/// one more would change it again, the repairs do not settle on this text,
/// and it stays as it is.
pub open spec fn scrubbed(rpc_name: Seq<char>, part: Part, text: Seq<char>) -> Seq<char> {
    match scrub_passes(rpc_name, part, text, text.len()) {
        Some(settled) => settled,
        None => text,
    }
}

/// The repaired result text of the command `rpc_name`.
pub open spec fn scrubbed_response(rpc_name: Seq<char>, result_data: Seq<char>) -> Seq<char> {
    scrubbed(rpc_name, Part::Response, result_data)
}

/// The repaired argument text of the command `rpc_name`.
pub open spec fn scrubbed_arguments(rpc_name: Seq<char>, arguments_data: Seq<char>) -> Seq<char> {
    scrubbed(rpc_name, Part::Arguments, arguments_data)
}

/// Where passes end, they end at a text that a pass leaves as it is.
pub proof fn lemma_scrub_passes_fixed(rpc_name: Seq<char>, part: Part, text: Seq<char>, fuel: nat)
    ensures
        scrub_passes(rpc_name, part, text, fuel) matches Some(settled) ==> scrub_pass(
            rpc_name,
            part,
            settled,
        ) == settled,
    decreases fuel,
{
    if scrub_pass(rpc_name, part, text) != text && fuel > 0 {
        lemma_scrub_passes_fixed(rpc_name, part, scrub_pass(rpc_name, part, text), (fuel - 1) as nat);
    }
}

/// Repairing a repaired text changes nothing.
pub proof fn lemma_scrubbed_idempotent(rpc_name: Seq<char>, part: Part, text: Seq<char>)
    ensures
        scrubbed(rpc_name, part, scrubbed(rpc_name, part, text)) == scrubbed(rpc_name, part, text),
{
    lemma_scrub_passes_fixed(rpc_name, part, text, text.len());
}

/// Whether `name` is one of `names`.
pub fn is_among(name: &str, names: &[&'static str]) -> (r: bool)
    ensures
        r == among(name@, names@),
{
    let mut i: usize = 0;
    while i < names.len()
        invariant
            i <= names.len(),
            forall|j: int| 0 <= j < i ==> (#[trigger] names@[j])@ != name@,
        decreases names.len() - i,
    {
        if same_text(names[i], name) {
            return true;
        }
        i += 1;
    }
    false
}

/// Makes each of `repairs` on `text` in turn.
pub fn repair(text: &[char], repairs: &[(&'static str, &'static str)]) -> (r: Vec<char>)
    ensures
        r@ == repaired(text@, pair_views(repairs@)),
{
    let ghost all = pair_views(repairs@);
    let mut current = slice_to_vec(text);
    let mut i: usize = 0;
    assert(all.take(0) =~= Seq::<(Seq<char>, Seq<char>)>::empty());
    while i < repairs.len()
        invariant
            i <= repairs.len(),
            all == pair_views(repairs@),
            current@ == repaired(text@, all.take(i as int)),
        decreases repairs.len() - i,
    {
        assert(all.take(i + 1).drop_last() =~= all.take(i as int));
        let from = to_chars(repairs[i].0);
        let to = to_chars(repairs[i].1);
        current = replace(current.as_slice(), from.as_slice(), to.as_slice());
        i += 1;
    }
    assert(all.take(i as int) =~= all);
    current
}

/// Takes the continuation lines out of `text` and ends every line that is
/// left with a line feed.
pub fn drop_continuation_lines(text: &[char]) -> (r: Vec<char>)
    ensures
        r@ == kept_lines(line_seq(text@)),
{
    let all = lines(text);
    let indent = to_chars(CONTINUATION_INDENT);
    let mut kept: Vec<char> = Vec::new();
    let mut i: usize = 0;
    assert(views(all@).take(0) =~= Seq::<Seq<char>>::empty());
    while i < all.len()
        invariant
            i <= all.len(),
            indent@ == CONTINUATION_INDENT@,
            views(all@) == line_seq(text@),
            kept@ == kept_lines(views(all@).take(i as int)),
        decreases all.len() - i,
    {
        assert(views(all@).take(i + 1).drop_last() =~= views(all@).take(i as int));
        assert(views(all@).take(i + 1).last() == all@[i as int]@);
        if !is_match_at(all[i], indent.as_slice(), 0) {
            push_all(&mut kept, all[i]);
            kept.push('\n');
        }
        i += 1;
    }
    assert(views(all@).take(i as int) =~= views(all@));
    kept
}

/// Makes one pass of the repairs of the arguments of `rpc_name`.
pub fn scrub_arguments_once(rpc_name: &str, text: &[char]) -> (r: Vec<char>)
    ensures
        r@ == scrub_pass(rpc_name@, Part::Arguments, text@),
{
    assert(repaired(text@, Seq::empty()) == text@);
    if is_among(rpc_name, BOOL_ARGUMENT_COMMANDS.as_slice()) {
        repair(text, ARGUMENT_BOOL.as_slice())
    } else if same_text(rpc_name, "z_getoperationresult") || same_text(
        rpc_name,
        "z_getoperationstatus",
    ) {
        repair(text, ARGUMENT_OPERATION_IDS.as_slice())
    } else if same_text(rpc_name, "z_mergetoaddress") {
        repair(text, ARGUMENT_FROM_ADDRESSES.as_slice())
    } else if same_text(rpc_name, "z_sendmany") {
        repair(text, ARGUMENT_AMOUNTS.as_slice())
    } else if same_text(rpc_name, "setban") {
        repair(text, ARGUMENT_SETBAN.as_slice())
    } else if same_text(rpc_name, "getaddressbalance") {
        repair(text, ARGUMENT_GETADDRESSBALANCE.as_slice())
    } else {
        slice_to_vec(text)
    }
}

/// Makes one pass of the repairs of the result of `name`.
pub fn scrub_response_once(name: &str, text: &[char]) -> (r: Vec<char>)
    ensures
        r@ == scrub_pass(name@, Part::Response, text@),
{
    if same_text(name, "listtransactions") {
        drop_continuation_lines(text)
    } else if same_text(name, "listunspent") {
        repair(text, LISTUNSPENT.as_slice())
    } else if same_text(name, "getaddressmempool") {
        repair(text, GETADDRESSMEMPOOL.as_slice())
    } else if same_text(name, "z_validateaddress") {
        repair(text, Z_VALIDATEADDRESS.as_slice())
    } else if same_text(name, "getblockdeltas") || same_text(name, "getblockhashes") {
        repair(text, HEX_STRINGS.as_slice())
    } else if same_text(name, "z_listunspent") {
        repair(text, Z_LISTUNSPENT.as_slice())
    } else if same_text(name, "z_listreceivedbyaddress") {
        repair(text, Z_LISTRECEIVEDBYADDRESS.as_slice())
    } else if same_text(name, "verifytxoutproof") {
        repair(text, VERIFYTXOUTPROOF.as_slice())
    } else if same_text(name, "generate") {
        repair(text, GENERATE.as_slice())
    } else if same_text(name, "getblockheader") {
        repair(text, GETBLOCKHEADER.as_slice())
    } else if same_text(name, "getrawmempool") {
        repair(text, GETRAWMEMPOOL.as_slice())
    } else if same_text(name, "z_getoperationresult") {
        repair(text, Z_GETOPERATIONRESULT.as_slice())
    } else if same_text(name, "z_getoperationstatus") {
        repair(text, Z_GETOPERATIONSTATUS.as_slice())
    } else if same_text(name, "getchaintips") {
        repair(text, GETCHAINTIPS.as_slice())
    } else if same_text(name, "getblockchaininfo") {
        repair(text, GETBLOCKCHAININFO.as_slice())
    } else if same_text(name, "getdeprecationinfo") || same_text(name, "getnetworkinfo")
        || same_text(name, "getpeerinfo") {
        repair(text, MAGIC_BEAN.as_slice())
    } else if same_text(name, "getspentinfo") {
        repair(text, GETSPENTINFO.as_slice())
    } else if same_text(name, "gettransaction") {
        repair(text, GETTRANSACTION.as_slice())
    } else if same_text(name, "listaccounts") {
        repair(text, LISTACCOUNTS.as_slice())
    } else if same_text(name, "listreceivedbyaccount") || same_text(
        name,
        "listreceivedbyaddress",
    ) {
        repair(text, LISTRECEIVED.as_slice())
    } else if same_text(name, "getblocktemplate") {
        repair(text, GETBLOCKTEMPLATE.as_slice())
    } else {
        repair(text, ELLIPSIS.as_slice())
    }
}

/// Repairs `text`: makes passes until one changes nothing.
pub fn scrub(rpc_name: &str, part: Part, text: &[char]) -> (r: Vec<char>)
    ensures
        r@ == scrubbed(rpc_name@, part, text@),
        scrubbed(rpc_name@, part, r@) == r@,
{
    proof {
        lemma_scrubbed_idempotent(rpc_name@, part, text@);
    }
    let mut current = slice_to_vec(text);
    let mut fuel: usize = text.len();
    loop
        invariant
            fuel <= text.len(),
            scrub_passes(rpc_name@, part, text@, text@.len()) == scrub_passes(
                rpc_name@,
                part,
                current@,
                fuel as nat,
            ),
        decreases fuel,
    {
        let next = match part {
            Part::Arguments => scrub_arguments_once(rpc_name, current.as_slice()),
            Part::Response => scrub_response_once(rpc_name, current.as_slice()),
        };
        if same_chars(next.as_slice(), current.as_slice()) {
            return current;
        }
        if fuel == 0 {
            return slice_to_vec(text);
        }
        current = next;
        fuel -= 1;
    }
}

/// Repairs the argument text of the command `rpc_name`. Repairing what
/// comes back changes nothing.
pub fn scrub_arguments(rpc_name: &str, arguments_data: String) -> (r: String)
    ensures
        r@ == scrubbed_arguments(rpc_name@, arguments_data@),
        scrubbed_arguments(rpc_name@, r@) == r@,
{
    let text = to_chars(arguments_data.as_str());
    from_chars(scrub(rpc_name, Part::Arguments, text.as_slice()).as_slice())
}

/// Repairs the result text of the command `rpc_name`. Repairing what comes
/// back changes nothing.
pub fn scrub_response(rpc_name: String, result_data: String) -> (r: String)
    ensures
        r@ == scrubbed_response(rpc_name@, result_data@),
        scrubbed_response(rpc_name@, r@) == r@,
{
    let text = to_chars(result_data.as_str());
    from_chars(scrub(rpc_name.as_str(), Part::Response, text.as_slice()).as_slice())
}

} // verus!
