//! Messages to the LVM metadata daemon. The library builds the requests and
//! reads the responses; sending them over the daemon's socket is the
//! caller's part.

use vstd::prelude::*;
use vstd::string::StringSliceAdditionalSpecFns;
use crate::parser::{map_text, text_bytes, textmap_to_buf, LvmTextMap};
use crate::util::push_all;

verus! {

pub const CH_NL: u8 = 10;
pub const CH_QUOTE: u8 = 34;

/// The marker that ends every request and response: `\n##\n`.
pub open spec fn end_marker() -> Seq<u8> {
    seq![10u8, 35, 35, 10]
}

fn end_marker_bytes() -> (r: Vec<u8>)
    ensures
        r@ == end_marker(),
{
    let r: Vec<u8> = vec![10u8, 35, 35, 10];
    assert(r@ == end_marker());
    r
}

/// The arguments of a request, one per line.
pub open spec fn args_text(args: Seq<Seq<u8>>) -> Seq<u8>
    decreases args.len(),
{
    if args.len() == 0 {
        seq![]
    } else {
        args_text(args.drop_last()) + args.last() + seq![CH_NL]
    }
}

/// A request: its name, the token, its arguments, and the end marker.
pub open spec fn request_text(req: Seq<u8>, token: Option<Seq<u8>>, args: Seq<Seq<u8>>) -> Seq<u8> {
    "request = \"".spec_bytes() + req + seq![CH_QUOTE, CH_NL] + match token {
        Some(t) => "token = \"filter:".spec_bytes() + t + seq![CH_QUOTE, CH_NL],
        None => seq![],
    } + args_text(args) + end_marker()
}

/// Build a request for the daemon.
pub fn request_message(req: &[u8], token: Option<&[u8]>, args: &Vec<Vec<u8>>) -> (r: Vec<u8>)
    ensures
        r@ == request_text(req@, match token { Some(t) => Some(t@), None => None }, args@.map_values(|a: Vec<u8>| a@)),
{
    let mut v = text_bytes("request = \"");
    push_all(&mut v, req);
    v.push(CH_QUOTE);
    v.push(CH_NL);
    let ghost head = v@;
    match token {
        Some(t) => {
            push_all(&mut v, text_bytes("token = \"filter:").as_slice());
            push_all(&mut v, t);
            v.push(CH_QUOTE);
            v.push(CH_NL);
        },
        None => {},
    }
    let ghost with_token = v@;
    let ghost all = args@.map_values(|a: Vec<u8>| a@);
    let mut i: usize = 0;
    assert(all.subrange(0, 0) =~= Seq::<Seq<u8>>::empty());
    assert(v@ =~= with_token + args_text(all.subrange(0, 0)));
    while i < args.len()
        invariant
            i <= args@.len(),
            all == args@.map_values(|a: Vec<u8>| a@),
            v@ == with_token + args_text(all.subrange(0, i as int)),
        decreases args@.len() - i,
    {
        push_all(&mut v, args[i].as_slice());
        v.push(CH_NL);
        let ghost sub = all.subrange(0, i + 1);
        assert(sub.drop_last() =~= all.subrange(0, i as int));
        assert(sub.last() == args@[i as int]@);
        assert(v@ =~= with_token + args_text(sub));
        i = i + 1;
    }
    assert(all.subrange(0, all.len() as int) =~= all);
    push_all(&mut v, end_marker_bytes().as_slice());
    assert(v@ =~= request_text(req@, match token { Some(t) => Some(t@), None => None }, all));
    v
}

/// The body of a response: the bytes before the end marker, once the
/// response ends with it.
pub fn collect_response(v: &[u8]) -> (r: Option<Vec<u8>>)
    ensures
        match r {
            Some(b) => v@.len() >= 4 && v@.subrange(v@.len() - 4, v@.len() as int) == end_marker() && b@ == v@.subrange(0, v@.len() - 4),
            None => !(v@.len() >= 4 && v@.subrange(v@.len() - 4, v@.len() as int) == end_marker()),
        },
{
    let n = v.len();
    if n < 4 {
        return None;
    }
    let m = end_marker_bytes();
    let tail = &v[n - 4..n];
    if !crate::parser::bytes_eq(tail, m.as_slice()) {
        return None;
    }
    let mut b: Vec<u8> = Vec::new();
    crate::util::push_range(&mut b, v, 0, n - 4);
    Some(b)
}

/// A section around a map's text: `<word> {`, the text, `}`.
pub open spec fn section_arg(word: Seq<u8>, m: Seq<(Seq<u8>, crate::parser::Value)>) -> Seq<u8> {
    word + " {".spec_bytes() + map_text(m, seq![]) + "}".spec_bytes()
}

fn section_bytes(word: &str, map: &LvmTextMap) -> (r: Vec<u8>)
    ensures
        r@ == section_arg(word.spec_bytes(), map@),
{
    let mut v = text_bytes(word);
    push_all(&mut v, text_bytes(" {").as_slice());
    push_all(&mut v, textmap_to_buf(map).as_slice());
    push_all(&mut v, text_bytes("}").as_slice());
    assert(v@ =~= section_arg(word.spec_bytes(), map@));
    v
}

/// The request that tells the daemon the current state of VG `name`.
pub fn vg_update(name: &[u8], map: &LvmTextMap) -> (r: Vec<u8>)
    ensures
        r@ == request_text("vg_update".spec_bytes(), Some("0".spec_bytes()), seq![
            "vgname = \"".spec_bytes() + name@ + seq![CH_QUOTE],
            section_arg("metadata".spec_bytes(), map@),
        ]),
{
    let mut a = text_bytes("vgname = \"");
    push_all(&mut a, name);
    a.push(CH_QUOTE);
    assert(a@ =~= "vgname = \"".spec_bytes() + name@ + seq![CH_QUOTE]);
    let mut args: Vec<Vec<u8>> = Vec::new();
    args.push(a);
    args.push(section_bytes("metadata", map));
    let req = text_bytes("vg_update");
    let token = text_bytes("0");
    let r = request_message(req.as_slice(), Some(token.as_slice()), &args);
    assert(args@.map_values(|a: Vec<u8>| a@) =~= seq![
        "vgname = \"".spec_bytes() + name@ + seq![CH_QUOTE],
        section_arg("metadata".spec_bytes(), map@),
    ]);
    r
}

/// The request that tells the daemon about a PV, described by `map`.
pub fn pv_found(map: &LvmTextMap) -> (r: Vec<u8>)
    ensures
        r@ == request_text("pv_found".spec_bytes(), Some("0".spec_bytes()), seq![section_arg("pvmeta".spec_bytes(), map@)]),
{
    let mut args: Vec<Vec<u8>> = Vec::new();
    args.push(section_bytes("pvmeta", map));
    let req = text_bytes("pv_found");
    let token = text_bytes("0");
    let r = request_message(req.as_slice(), Some(token.as_slice()), &args);
    assert(args@.map_values(|a: Vec<u8>| a@) =~= seq![section_arg("pvmeta".spec_bytes(), map@)]);
    r
}

} // verus!
