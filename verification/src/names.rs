//! The names this library reads and writes, as the bytes a PDF holds them in.

use vstd::prelude::*;

verus! {

/// `/Root`.
pub open spec fn spec_root_name() -> Seq<u8> {
    seq!['R' as u8, 'o' as u8, 'o' as u8, 't' as u8]
}

/// `/Root`, as bytes.
pub fn root_name() -> (r: Vec<u8>)
    ensures
        r@ == spec_root_name(),
{
    let r = vec!['R' as u8, 'o' as u8, 'o' as u8, 't' as u8];
    assert(r@ =~= spec_root_name());
    r
}

/// `/AcroForm`.
pub open spec fn spec_acro_form_name() -> Seq<u8> {
    seq!['A' as u8, 'c' as u8, 'r' as u8, 'o' as u8, 'F' as u8, 'o' as u8, 'r' as u8, 'm' as u8]
}

/// `/AcroForm`, as bytes.
pub fn acro_form_name() -> (r: Vec<u8>)
    ensures
        r@ == spec_acro_form_name(),
{
    let r = vec!['A' as u8, 'c' as u8, 'r' as u8, 'o' as u8, 'F' as u8, 'o' as u8, 'r' as u8, 'm' as u8];
    assert(r@ =~= spec_acro_form_name());
    r
}

/// `/NeedAppearances`.
pub open spec fn spec_need_appearances_name() -> Seq<u8> {
    seq!['N' as u8, 'e' as u8, 'e' as u8, 'd' as u8, 'A' as u8, 'p' as u8, 'p' as u8, 'e' as u8, 'a' as u8, 'r' as u8, 'a' as u8, 'n' as u8, 'c' as u8, 'e' as u8, 's' as u8]
}

/// `/NeedAppearances`, as bytes.
pub fn need_appearances_name() -> (r: Vec<u8>)
    ensures
        r@ == spec_need_appearances_name(),
{
    let r = vec!['N' as u8, 'e' as u8, 'e' as u8, 'd' as u8, 'A' as u8, 'p' as u8, 'p' as u8, 'e' as u8, 'a' as u8, 'r' as u8, 'a' as u8, 'n' as u8, 'c' as u8, 'e' as u8, 's' as u8];
    assert(r@ =~= spec_need_appearances_name());
    r
}

/// `/Fields`.
pub open spec fn spec_fields_name() -> Seq<u8> {
    seq!['F' as u8, 'i' as u8, 'e' as u8, 'l' as u8, 'd' as u8, 's' as u8]
}

/// `/Fields`, as bytes.
pub fn fields_name() -> (r: Vec<u8>)
    ensures
        r@ == spec_fields_name(),
{
    let r = vec!['F' as u8, 'i' as u8, 'e' as u8, 'l' as u8, 'd' as u8, 's' as u8];
    assert(r@ =~= spec_fields_name());
    r
}

/// `/Annots`.
pub open spec fn spec_annots_name() -> Seq<u8> {
    seq!['A' as u8, 'n' as u8, 'n' as u8, 'o' as u8, 't' as u8, 's' as u8]
}

/// `/Annots`, as bytes.
pub fn annots_name() -> (r: Vec<u8>)
    ensures
        r@ == spec_annots_name(),
{
    let r = vec!['A' as u8, 'n' as u8, 'n' as u8, 'o' as u8, 't' as u8, 's' as u8];
    assert(r@ =~= spec_annots_name());
    r
}

/// `/FT`.
pub open spec fn spec_ft_name() -> Seq<u8> {
    seq!['F' as u8, 'T' as u8]
}

/// `/FT`, as bytes.
pub fn ft_name() -> (r: Vec<u8>)
    ensures
        r@ == spec_ft_name(),
{
    let r = vec!['F' as u8, 'T' as u8];
    assert(r@ =~= spec_ft_name());
    r
}

/// `/Ff`.
pub open spec fn spec_ff_name() -> Seq<u8> {
    seq!['F' as u8, 'f' as u8]
}

/// `/Ff`, as bytes.
pub fn ff_name() -> (r: Vec<u8>)
    ensures
        r@ == spec_ff_name(),
{
    let r = vec!['F' as u8, 'f' as u8];
    assert(r@ =~= spec_ff_name());
    r
}

/// `/V`.
pub open spec fn spec_v_name() -> Seq<u8> {
    seq!['V' as u8]
}

/// `/V`, as bytes.
pub fn v_name() -> (r: Vec<u8>)
    ensures
        r@ == spec_v_name(),
{
    let r = vec!['V' as u8];
    assert(r@ =~= spec_v_name());
    r
}

/// `/DV`.
pub open spec fn spec_dv_name() -> Seq<u8> {
    seq!['D' as u8, 'V' as u8]
}

/// `/DV`, as bytes.
pub fn dv_name() -> (r: Vec<u8>)
    ensures
        r@ == spec_dv_name(),
{
    let r = vec!['D' as u8, 'V' as u8];
    assert(r@ =~= spec_dv_name());
    r
}

/// `/T`.
pub open spec fn spec_t_name() -> Seq<u8> {
    seq!['T' as u8]
}

/// `/T`, as bytes.
pub fn t_name() -> (r: Vec<u8>)
    ensures
        r@ == spec_t_name(),
{
    let r = vec!['T' as u8];
    assert(r@ =~= spec_t_name());
    r
}

/// `/Kids`.
pub open spec fn spec_kids_name() -> Seq<u8> {
    seq!['K' as u8, 'i' as u8, 'd' as u8, 's' as u8]
}

/// `/Kids`, as bytes.
pub fn kids_name() -> (r: Vec<u8>)
    ensures
        r@ == spec_kids_name(),
{
    let r = vec!['K' as u8, 'i' as u8, 'd' as u8, 's' as u8];
    assert(r@ =~= spec_kids_name());
    r
}

/// `/Rect`.
pub open spec fn spec_rect_name() -> Seq<u8> {
    seq!['R' as u8, 'e' as u8, 'c' as u8, 't' as u8]
}

/// `/Rect`, as bytes.
pub fn rect_name() -> (r: Vec<u8>)
    ensures
        r@ == spec_rect_name(),
{
    let r = vec!['R' as u8, 'e' as u8, 'c' as u8, 't' as u8];
    assert(r@ =~= spec_rect_name());
    r
}

/// `/AP`.
pub open spec fn spec_ap_name() -> Seq<u8> {
    seq!['A' as u8, 'P' as u8]
}

/// `/AP`, as bytes.
pub fn ap_name() -> (r: Vec<u8>)
    ensures
        r@ == spec_ap_name(),
{
    let r = vec!['A' as u8, 'P' as u8];
    assert(r@ =~= spec_ap_name());
    r
}

/// `/AS`.
pub open spec fn spec_as_name() -> Seq<u8> {
    seq!['A' as u8, 'S' as u8]
}

/// `/AS`, as bytes.
pub fn as_name() -> (r: Vec<u8>)
    ensures
        r@ == spec_as_name(),
{
    let r = vec!['A' as u8, 'S' as u8];
    assert(r@ =~= spec_as_name());
    r
}

/// `/N`.
pub open spec fn spec_n_name() -> Seq<u8> {
    seq!['N' as u8]
}

/// `/N`, as bytes.
pub fn n_name() -> (r: Vec<u8>)
    ensures
        r@ == spec_n_name(),
{
    let r = vec!['N' as u8];
    assert(r@ =~= spec_n_name());
    r
}

/// `/Off`.
pub open spec fn spec_off_name() -> Seq<u8> {
    seq!['O' as u8, 'f' as u8, 'f' as u8]
}

/// `/Off`, as bytes.
pub fn off_name() -> (r: Vec<u8>)
    ensures
        r@ == spec_off_name(),
{
    let r = vec!['O' as u8, 'f' as u8, 'f' as u8];
    assert(r@ =~= spec_off_name());
    r
}

/// `/I`.
pub open spec fn spec_i_name() -> Seq<u8> {
    seq!['I' as u8]
}

/// `/I`, as bytes.
pub fn i_name() -> (r: Vec<u8>)
    ensures
        r@ == spec_i_name(),
{
    let r = vec!['I' as u8];
    assert(r@ =~= spec_i_name());
    r
}

/// `/RV`.
pub open spec fn spec_rv_name() -> Seq<u8> {
    seq!['R' as u8, 'V' as u8]
}

/// `/RV`, as bytes.
pub fn rv_name() -> (r: Vec<u8>)
    ensures
        r@ == spec_rv_name(),
{
    let r = vec!['R' as u8, 'V' as u8];
    assert(r@ =~= spec_rv_name());
    r
}

/// `/DecodeParms`.
pub open spec fn spec_decode_parms_name() -> Seq<u8> {
    seq!['D' as u8, 'e' as u8, 'c' as u8, 'o' as u8, 'd' as u8, 'e' as u8, 'P' as u8, 'a' as u8, 'r' as u8, 'm' as u8, 's' as u8]
}

/// `/DecodeParms`, as bytes.
pub fn decode_parms_name() -> (r: Vec<u8>)
    ensures
        r@ == spec_decode_parms_name(),
{
    let r = vec!['D' as u8, 'e' as u8, 'c' as u8, 'o' as u8, 'd' as u8, 'e' as u8, 'P' as u8, 'a' as u8, 'r' as u8, 'm' as u8, 's' as u8];
    assert(r@ =~= spec_decode_parms_name());
    r
}

/// `/Filter`.
pub open spec fn spec_filter_name() -> Seq<u8> {
    seq!['F' as u8, 'i' as u8, 'l' as u8, 't' as u8, 'e' as u8, 'r' as u8]
}

/// `/Filter`, as bytes.
pub fn filter_name() -> (r: Vec<u8>)
    ensures
        r@ == spec_filter_name(),
{
    let r = vec!['F' as u8, 'i' as u8, 'l' as u8, 't' as u8, 'e' as u8, 'r' as u8];
    assert(r@ =~= spec_filter_name());
    r
}

/// `/Length`.
pub open spec fn spec_length_name() -> Seq<u8> {
    seq!['L' as u8, 'e' as u8, 'n' as u8, 'g' as u8, 't' as u8, 'h' as u8]
}

/// `/Length`, as bytes.
pub fn length_name() -> (r: Vec<u8>)
    ensures
        r@ == spec_length_name(),
{
    let r = vec!['L' as u8, 'e' as u8, 'n' as u8, 'g' as u8, 't' as u8, 'h' as u8];
    assert(r@ =~= spec_length_name());
    r
}

/// `/Encrypt`.
pub open spec fn spec_encrypt_name() -> Seq<u8> {
    seq!['E' as u8, 'n' as u8, 'c' as u8, 'r' as u8, 'y' as u8, 'p' as u8, 't' as u8]
}

/// `/Encrypt`, as bytes.
pub fn encrypt_name() -> (r: Vec<u8>)
    ensures
        r@ == spec_encrypt_name(),
{
    let r = vec!['E' as u8, 'n' as u8, 'c' as u8, 'r' as u8, 'y' as u8, 'p' as u8, 't' as u8];
    assert(r@ =~= spec_encrypt_name());
    r
}

/// `/Btn`.
pub open spec fn spec_btn_name() -> Seq<u8> {
    seq!['B' as u8, 't' as u8, 'n' as u8]
}

/// `/Btn`, as bytes.
pub fn btn_name() -> (r: Vec<u8>)
    ensures
        r@ == spec_btn_name(),
{
    let r = vec!['B' as u8, 't' as u8, 'n' as u8];
    assert(r@ =~= spec_btn_name());
    r
}

/// `/Tx`.
pub open spec fn spec_tx_name() -> Seq<u8> {
    seq!['T' as u8, 'x' as u8]
}

/// `/Tx`, as bytes.
pub fn tx_name() -> (r: Vec<u8>)
    ensures
        r@ == spec_tx_name(),
{
    let r = vec!['T' as u8, 'x' as u8];
    assert(r@ =~= spec_tx_name());
    r
}

/// `/Ch`.
pub open spec fn spec_ch_name() -> Seq<u8> {
    seq!['C' as u8, 'h' as u8]
}

/// `/Ch`, as bytes.
pub fn ch_name() -> (r: Vec<u8>)
    ensures
        r@ == spec_ch_name(),
{
    let r = vec!['C' as u8, 'h' as u8];
    assert(r@ =~= spec_ch_name());
    r
}

/// `/Sig`.
pub open spec fn spec_sig_name() -> Seq<u8> {
    seq!['S' as u8, 'i' as u8, 'g' as u8]
}

/// `/Sig`, as bytes.
pub fn sig_name() -> (r: Vec<u8>)
    ensures
        r@ == spec_sig_name(),
{
    let r = vec!['S' as u8, 'i' as u8, 'g' as u8];
    assert(r@ =~= spec_sig_name());
    r
}

} // verus!
