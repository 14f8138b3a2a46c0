//! The choice of the outputs that pay for a transaction.

use vstd::prelude::*;
use crate::bip375::fields;
use crate::bytes;
use crate::script;
use crate::text;
use crate::bytes::compact_size_len;
use crate::hash::OutPoint;
use crate::psbt::TxOut;
use crate::text::to_decimal;

verus! {

/// A rate of fees: so many satoshis for so many virtual bytes.
#[derive(Clone, Copy, Debug, PartialEq, Eq)]
pub struct FeeRate {
    pub fee: u64,
    pub vbytes: usize,
}

/// The outputs that were chosen, and what becomes of their value.
#[derive(Debug, PartialEq, Eq)]
pub struct InputSelection {
    pub selected_utxos: Vec<OutPoint>,
    /// The change, in satoshis.
    pub change: u64,
    /// The fee, in satoshis.
    pub fee: u64,
}

/// Why no outputs can be chosen.
#[derive(Clone, Copy, Debug, PartialEq, Eq)]
pub enum SelectionError {
    /// So many satoshis are missing to pay for the outputs and the fee.
    InsufficientFunds { missing: u64 },
    /// The chosen outputs are worth less than the outputs and the change.
    NotEnoughFunds,
}

/// The text of an error.
pub open spec fn selection_text(error: SelectionError) -> Seq<char> {
    match error {
        SelectionError::InsufficientFunds { missing } => "Insufficient funds. Missing "@
            + text::decimal(missing as nat) + " sats."@,
        SelectionError::NotEnoughFunds => "Not enough funds available"@,
    }
}

impl SelectionError {
    /// The text of the error.
    pub fn message(&self) -> (res: String)
        ensures
            res@ == selection_text(*self),
    {
        match self {
            SelectionError::InsufficientFunds { missing } => String::from_str(
                "Insufficient funds. Missing ",
            ).concat(to_decimal(*missing).as_str()).concat(" sats."),
            SelectionError::NotEnoughFunds => String::from_str("Not enough funds available"),
        }
    }
}

/// How many of the values `bdk_coin_select::CoinSelector::select_until_target_met` selects, as
/// taproot outputs that are spent by their keys; or how much is missing.
pub uninterp spec fn coin_count(
    values: Seq<u64>,
    value_sum: u64,
    weight_sum: u64,
    n_outputs: usize,
    fee: u64,
    vbytes: usize,
) -> Result<usize, u64>;

/// The value of the change that `bdk_coin_select::CoinSelector::drain` gives for selected values,
/// with a change output that is spent by its taproot key and worth more than `min_value`; 0 where
/// there is no change.
pub uninterp spec fn drain_value(
    values: Seq<u64>,
    value_sum: u64,
    weight_sum: u64,
    n_outputs: usize,
    fee: u64,
    vbytes: usize,
    min_value: u64,
) -> u64;

/// The sum of values.
pub open spec fn sum(values: Seq<u64>) -> nat
    decreases values.len(),
{
    if values.len() == 0 {
        0
    } else {
        sum(values.drop_last()) + values.last() as nat
    }
}

/// The values, the weights and the fees are far from the limits of 64 bits.
pub open spec fn within_limits(
    values: Seq<u64>,
    value_sum: nat,
    weight_sum: nat,
    rate: FeeRate,
) -> bool {
    &&& rate.vbytes > 0
    &&& sum(values) <= 0x4000_0000_0000_0000
    &&& value_sum <= 0x2000_0000_0000_0000
    &&& weight_sum <= 0x1000_0000_0000_0000
    &&& (weight_sum + 230 * values.len() + 1000) * rate.fee <= 0x2000_0000_0000_0000 * rate.vbytes
}

/// Calls `bdk_coin_select::CoinSelector::select_until_target_met` on taproot outputs with these
/// values, at the rate that `bdk_coin_select::FeeRate::from_vb` makes of `rate`: the name
/// `coin_count` says how many it selects, or how much is missing. It selects the first ones, and
/// they are worth no less than the outputs.
#[verifier::external_body]
fn select_until_target_met(
    values: &Vec<u64>,
    value_sum: u64,
    weight_sum: u64,
    n_outputs: usize,
    rate: &FeeRate,
) -> (res: Result<Vec<usize>, u64>)
    requires
        within_limits(values@, value_sum as nat, weight_sum as nat, *rate),
        n_outputs < usize::MAX,
    ensures
        match res {
            Ok(indices) => coin_count(
                values@,
                value_sum,
                weight_sum,
                n_outputs,
                rate.fee,
                rate.vbytes,
            ) == Ok::<usize, u64>(indices@.len() as usize) && indices@.len() <= values@.len()
                && value_sum <= sum(values@.take(indices@.len() as int)) && forall|i: int|
                0 <= i < indices@.len() ==> #[trigger] indices@[i] == i,
            Err(missing) => coin_count(
                values@,
                value_sum,
                weight_sum,
                n_outputs,
                rate.fee,
                rate.vbytes,
            ) == Err::<usize, u64>(missing),
        },
{
    let candidates: Vec<bdk_coin_select::Candidate> = values.iter().map(
        |value| bdk_coin_select::Candidate::new_tr_keyspend(*value),
    ).collect();
    let outputs = bdk_coin_select::TargetOutputs { value_sum, weight_sum, n_outputs };
    let rate = bdk_coin_select::FeeRate::from_vb(rate.fee, rate.vbytes);
    let fee = bdk_coin_select::TargetFee::from_feerate(rate);
    let mut selector = bdk_coin_select::CoinSelector::new(&candidates);
    match selector.select_until_target_met(bdk_coin_select::Target { fee, outputs }) {
        Ok(()) => Ok(selector.selected_indices().iter().copied().collect()),
        Err(error) => Err(error.missing),
    }
}

/// Calls `bdk_coin_select::CoinSelector::drain` with taproot outputs of these values selected and
/// the policy that `bdk_coin_select::ChangePolicy::min_value` makes: the name `drain_value` says
/// what the change is worth. Where there is change, it is worth more than `min_value`, and no more
/// than the selected outputs leave over.
#[verifier::external_body]
fn drain(
    values: &Vec<u64>,
    value_sum: u64,
    weight_sum: u64,
    n_outputs: usize,
    rate: &FeeRate,
    min_value: u64,
) -> (res: u64)
    requires
        within_limits(values@, value_sum as nat, weight_sum as nat, *rate),
        n_outputs < usize::MAX,
        min_value <= i64::MAX,
    ensures
        res == drain_value(
            values@,
            value_sum,
            weight_sum,
            n_outputs,
            rate.fee,
            rate.vbytes,
            min_value,
        ),
        res > 0 ==> res > min_value && value_sum + res <= sum(values@),
{
    let candidates: Vec<bdk_coin_select::Candidate> = values.iter().map(
        |value| bdk_coin_select::Candidate::new_tr_keyspend(*value),
    ).collect();
    let outputs = bdk_coin_select::TargetOutputs { value_sum, weight_sum, n_outputs };
    let rate = bdk_coin_select::FeeRate::from_vb(rate.fee, rate.vbytes);
    let fee = bdk_coin_select::TargetFee::from_feerate(rate);
    let weights = bdk_coin_select::DrainWeights::TR_KEYSPEND;
    let policy = bdk_coin_select::ChangePolicy::min_value(weights, min_value);
    let mut selector = bdk_coin_select::CoinSelector::new(&candidates);
    selector.select_all();
    selector.drain(bdk_coin_select::Target { fee, outputs }, policy).value
}

/// Reads `bdk_coin_select::TR_DUST_RELAY_MIN_VALUE`, the least value of a taproot output that is
/// relayed: 330 satoshis.
#[verifier::external_body]
fn dust_limit() -> (res: u64)
    ensures
        res == 330,
{
    bdk_coin_select::TR_DUST_RELAY_MIN_VALUE
}

/// The values of the available outputs.
pub open spec fn values_of(utxos: Seq<(OutPoint, TxOut)>) -> Seq<u64> {
    utxos.map_values(|utxo: (OutPoint, TxOut)| utxo.1.value)
}

/// The outpoints of the available outputs.
pub open spec fn outpoints_of(utxos: Seq<(OutPoint, TxOut)>) -> Seq<OutPoint> {
    utxos.map_values(|utxo: (OutPoint, TxOut)| utxo.0)
}

/// The values of outputs.
pub open spec fn output_values(outputs: Seq<TxOut>) -> Seq<u64> {
    outputs.map_values(|output: TxOut| output.value)
}

/// The length of the variable length encoding of a count.
pub open spec fn count_len(n: nat) -> nat {
    crate::bytes::compact_size(n).len()
}

/// The weight of an output: four units for each byte of its serialization.
pub open spec fn output_weight(output: TxOut) -> nat {
    4 * (8 + count_len(output.script_pubkey@.len()) + output.script_pubkey@.len())
}

/// The weight of outputs.
pub open spec fn weight_of(outputs: Seq<TxOut>) -> nat
    decreases outputs.len(),
{
    if outputs.len() == 0 {
        0
    } else {
        weight_of(outputs.drop_last()) + output_weight(outputs.last())
    }
}

/// All available outputs are taproot outputs, and the sums and the number of outputs are within the
/// limits.
pub open spec fn selectable(
    utxos: Seq<(OutPoint, TxOut)>,
    outputs: Seq<TxOut>,
    rate: FeeRate,
) -> bool {
    &&& forall|i: int|
        0 <= i < utxos.len() ==> script::p2tr((#[trigger] utxos[i]).1.script_pubkey@)
    &&& outputs.len() < usize::MAX
    &&& within_limits(values_of(utxos), sum(output_values(outputs)), weight_of(outputs), rate)
}

proof fn lemma_sum_prefix(values: Seq<u64>, n: int)
    requires
        0 <= n <= values.len(),
    ensures
        sum(values.take(n)) <= sum(values),
    decreases values.len(),
{
    if n < values.len() {
        lemma_sum_prefix(values.drop_last(), n);
        assert(values.drop_last().take(n) =~= values.take(n));
    } else {
        assert(values.take(n) =~= values);
    }
}

proof fn lemma_weight_prefix(outputs: Seq<TxOut>, n: int)
    requires
        0 <= n <= outputs.len(),
    ensures
        weight_of(outputs.take(n)) <= weight_of(outputs),
    decreases outputs.len(),
{
    if n < outputs.len() {
        lemma_weight_prefix(outputs.drop_last(), n);
        assert(outputs.drop_last().take(n) =~= outputs.take(n));
    } else {
        assert(outputs.take(n) =~= outputs);
    }
}

/// Adds up the values and the weights of outputs.
fn measure(outputs: &Vec<TxOut>) -> (res: (u64, u64))
    requires
        sum(output_values(outputs@)) <= 0x2000_0000_0000_0000,
        weight_of(outputs@) <= 0x1000_0000_0000_0000,
    ensures
        res.0 == sum(output_values(outputs@)),
        res.1 == weight_of(outputs@),
{
    let ghost values = output_values(outputs@);
    let mut value_sum: u64 = 0;
    let mut weight_sum: u64 = 0;
    let mut i: usize = 0;
    while i < outputs.len()
        invariant
            i <= outputs@.len(),
            values == output_values(outputs@),
            sum(values) <= 0x2000_0000_0000_0000,
            weight_of(outputs@) <= 0x1000_0000_0000_0000,
            value_sum == sum(values.take(i as int)),
            weight_sum == weight_of(outputs@.take(i as int)),
        decreases outputs@.len() - i,
    {
        let output = &outputs[i];
        proof {
            assert(values.take(i + 1).drop_last() =~= values.take(i as int));
            assert(outputs@.take(i + 1).drop_last() =~= outputs@.take(i as int));
            lemma_sum_prefix(values, i + 1);
            lemma_weight_prefix(outputs@, i + 1);
        }
        let len: usize = output.script_pubkey.len();
        value_sum += output.value;
        weight_sum += 4 * (8 + compact_size_len(len) + len as u64);
        i += 1;
    }
    assert(values.take(i as int) =~= values);
    assert(outputs@.take(i as int) =~= outputs@);
    (value_sum, weight_sum)
}

/// The indices belong to available outputs.
pub open spec fn indices_valid(selected: Seq<usize>, len: nat) -> bool {
    forall|i: int| 0 <= i < selected.len() ==> (#[trigger] selected[i]) < len
}

/// The values of selected outputs.
pub open spec fn selected_values(utxos: Seq<(OutPoint, TxOut)>, selected: Seq<usize>) -> Seq<u64> {
    selected.map_values(|i: usize| utxos[i as int].1.value)
}

/// The outpoints of selected outputs.
pub open spec fn selected_outpoints(
    utxos: Seq<(OutPoint, TxOut)>,
    selected: Seq<usize>,
) -> Seq<OutPoint> {
    selected.map_values(|i: usize| utxos[i as int].0)
}

/// What is left of the selected outputs behind the outputs and the change is the fee.
pub fn settle(
    available_utxos: &Vec<(OutPoint, TxOut)>,
    selected: &Vec<usize>,
    value_sum: u64,
    change: u64,
) -> (res: Result<InputSelection, SelectionError>)
    requires
        indices_valid(selected@, available_utxos@.len()),
        sum(selected_values(available_utxos@, selected@)) <= u64::MAX,
    ensures
        match res {
            Ok(selection) => {
                &&& selection.selected_utxos@ == selected_outpoints(available_utxos@, selected@)
                &&& selection.change == change
                &&& value_sum + change + selection.fee == sum(
                    selected_values(available_utxos@, selected@),
                )
            },
            Err(error) => error == SelectionError::NotEnoughFunds && sum(
                selected_values(available_utxos@, selected@),
            ) < value_sum + change,
        },
{
    let ghost values = selected_values(available_utxos@, selected@);
    let ghost outpoints = selected_outpoints(available_utxos@, selected@);
    let mut selected_utxos: Vec<OutPoint> = Vec::new();
    let mut total: u64 = 0;
    let mut i: usize = 0;
    while i < selected.len()
        invariant
            i <= selected@.len(),
            indices_valid(selected@, available_utxos@.len()),
            values == selected_values(available_utxos@, selected@),
            outpoints == selected_outpoints(available_utxos@, selected@),
            sum(values) <= u64::MAX,
            total == sum(values.take(i as int)),
            selected_utxos@ == outpoints.take(i as int),
        decreases selected@.len() - i,
    {
        let index: usize = selected[i];
        let utxo = &available_utxos[index];
        proof {
            assert(values.take(i + 1).drop_last() =~= values.take(i as int));
            lemma_sum_prefix(values, i + 1);
        }
        total += utxo.1.value;
        selected_utxos.push(utxo.0);
        i += 1;
        assert(selected_utxos@ =~= outpoints.take(i as int));
    }
    assert(values.take(i as int) =~= values);
    assert(outpoints.take(i as int) =~= outpoints);
    let fee: i128 = total as i128 - value_sum as i128 - change as i128;
    if fee < 0 {
        return Err(SelectionError::NotEnoughFunds);
    }
    Ok(InputSelection { selected_utxos, change, fee: fee as u64 })
}

/// What the choice of outputs gives.
pub open spec fn picked(
    utxos: Seq<(OutPoint, TxOut)>,
    outputs: Seq<TxOut>,
    rate: FeeRate,
    res: Result<InputSelection, SelectionError>,
) -> bool {
    match coin_count(
        values_of(utxos),
        sum(output_values(outputs)) as u64,
        weight_of(outputs) as u64,
        outputs.len() as usize,
        rate.fee,
        rate.vbytes,
    ) {
        Err(missing) => res == Err::<InputSelection, _>(
            SelectionError::InsufficientFunds { missing },
        ),
        Ok(n) => {
            &&& n <= utxos.len()
            &&& res matches Ok(selection)
            &&& selection.selected_utxos@ == outpoints_of(utxos).take(n as int)
            &&& selection.change == drain_value(
                values_of(utxos).take(n as int),
                sum(output_values(outputs)) as u64,
                weight_of(outputs) as u64,
                outputs.len() as usize,
                rate.fee,
                rate.vbytes,
                660,
            )
            &&& selection.change == 0 || selection.change > 660
            &&& sum(values_of(utxos).take(n as int)) == sum(
                output_values(outputs),
            ) + selection.change + selection.fee
        },
    }
}

/// Chooses outputs that pay for a transaction with the outputs `tx_outs` at a rate of fees: the
/// first ones that are worth enough. What they leave over goes to change where it is worth more
/// than twice the dust limit, and to the fee otherwise.
pub fn pick_utxos_for_fee_rate(
    available_utxos: Vec<(OutPoint, TxOut)>,
    tx_outs: Vec<TxOut>,
    fee_rate: FeeRate,
) -> (res: Result<InputSelection, SelectionError>)
    requires
        selectable(available_utxos@, tx_outs@, fee_rate),
    ensures
        match coin_count(
            values_of(available_utxos@),
            sum(output_values(tx_outs@)) as u64,
            weight_of(tx_outs@) as u64,
            tx_outs@.len() as usize,
            fee_rate.fee,
            fee_rate.vbytes,
        ) {
            Err(missing) => res == Err::<InputSelection, _>(
                SelectionError::InsufficientFunds { missing },
            ),
            Ok(n) => {
                &&& n <= available_utxos@.len()
                &&& res matches Ok(selection)
                &&& selection.selected_utxos@ == outpoints_of(available_utxos@).take(n as int)
                &&& selection.change == drain_value(
                    values_of(available_utxos@).take(n as int),
                    sum(output_values(tx_outs@)) as u64,
                    weight_of(tx_outs@) as u64,
                    tx_outs@.len() as usize,
                    fee_rate.fee,
                    fee_rate.vbytes,
                    660,
                )
                &&& selection.change == 0 || selection.change > 660
                &&& sum(values_of(available_utxos@).take(n as int)) == sum(
                    output_values(tx_outs@),
                ) + selection.change + selection.fee
            },
        },
        picked(available_utxos@, tx_outs@, fee_rate, res),
{
    let ghost all_values = values_of(available_utxos@);
    let (value_sum, weight_sum) = measure(&tx_outs);
    let n_outputs: usize = tx_outs.len();
    let mut values: Vec<u64> = Vec::new();
    let mut i: usize = 0;
    while i < available_utxos.len()
        invariant
            i <= available_utxos@.len(),
            all_values == values_of(available_utxos@),
            values@ == all_values.take(i as int),
        decreases available_utxos@.len() - i,
    {
        values.push(available_utxos[i].1.value);
        i += 1;
        assert(values@ =~= all_values.take(i as int));
    }
    assert(all_values.take(i as int) =~= all_values);
    let selected = match select_until_target_met(
        &values,
        value_sum,
        weight_sum,
        n_outputs,
        &fee_rate,
    ) {
        Ok(selected) => selected,
        Err(missing) => return Err(SelectionError::InsufficientFunds { missing }),
    };
    let ghost n = selected@.len() as int;
    let mut chosen: Vec<u64> = Vec::new();
    let mut j: usize = 0;
    while j < selected.len()
        invariant
            j <= selected@.len() == n <= values@.len(),
            values@ == all_values,
            forall|k: int| 0 <= k < n ==> #[trigger] selected@[k] == k,
            chosen@ == all_values.take(j as int),
        decreases selected@.len() - j,
    {
        let index: usize = selected[j];
        chosen.push(values[index]);
        j += 1;
        assert(chosen@ =~= all_values.take(j as int));
    }
    proof {
        lemma_sum_prefix(all_values, n);
        lemma_limits_prefix(all_values, n, value_sum as nat, weight_sum as nat, fee_rate);
        assert(selected_values(available_utxos@, selected@) =~= all_values.take(n));
        assert(selected_outpoints(available_utxos@, selected@) =~= outpoints_of(
            available_utxos@,
        ).take(n));
    }
    let min_change: u64 = dust_limit() * 2;
    let change = drain(&chosen, value_sum, weight_sum, n_outputs, &fee_rate, min_change);
    settle(&available_utxos, &selected, value_sum, change)
}

proof fn lemma_limits_prefix(
    values: Seq<u64>,
    n: int,
    value_sum: nat,
    weight_sum: nat,
    rate: FeeRate,
)
    requires
        0 <= n <= values.len(),
        within_limits(values, value_sum, weight_sum, rate),
    ensures
        within_limits(values.take(n), value_sum, weight_sum, rate),
{
    lemma_sum_prefix(values, n);
    let less = weight_sum + 230 * n + 1000;
    let more = weight_sum + 230 * values.len() + 1000;
    assert(less * rate.fee <= more * rate.fee) by (nonlinear_arith)
        requires
            0 <= less <= more,
            0 <= rate.fee,
    ;
}

/// Adding up is additive: what two lists of values add up to is the sum of what each adds up to,
/// and one value adds up to itself.
pub proof fn law_values_add_up(a: Seq<u64>, b: Seq<u64>, value: u64)
    ensures
        sum(Seq::empty()) == 0,
        sum(seq![value]) == value,
        sum(a + b) == sum(a) + sum(b),
    decreases b.len(),
{
    reveal_with_fuel(sum, 2);
    assert(seq![value].drop_last() =~= Seq::empty());
    if b.len() == 0 {
        assert(a + b =~= a);
    } else {
        assert((a + b).drop_last() =~= a + b.drop_last());
        assert((a + b).last() == b.last());
        law_values_add_up(a, b.drop_last(), value);
    }
}

/// The weight that has to be paid for is additive: the outputs of two lists weigh what the one and
/// the other weigh together.
pub proof fn law_weights_add_up(a: Seq<TxOut>, b: Seq<TxOut>)
    ensures
        weight_of(Seq::empty()) == 0,
        weight_of(a + b) == weight_of(a) + weight_of(b),
    decreases b.len(),
{
    if b.len() == 0 {
        assert(a + b =~= a);
    } else {
        assert((a + b).drop_last() =~= a + b.drop_last());
        assert((a + b).last() == b.last());
        law_weights_add_up(a, b.drop_last());
    }
}

/// One output weighs four units for each byte of its serialization: the eight bytes of its value,
/// the length of its script in one, three, five or nine bytes, and the script.
pub proof fn law_weight_of_one(output: TxOut)
    ensures
        weight_of(seq![output]) == 4 * fields::tx_out_bytes(output).len(),
        weight_of(seq![output]) == 4 * (8 + output.script_pubkey@.len() + (
        if output.script_pubkey@.len() < 253 {
            1int
        } else if output.script_pubkey@.len() < 65536 {
            3
        } else if output.script_pubkey@.len() < 4294967296 {
            5
        } else {
            9
        })),
{
    let len = output.script_pubkey@.len();
    reveal_with_fuel(weight_of, 2);
    assert(seq![output].drop_last() =~= Seq::empty());
    bytes::lemma_le_bytes_len(len, 2);
    bytes::lemma_le_bytes_len(len, 4);
    bytes::lemma_le_bytes_len(len, 8);
    bytes::lemma_le_bytes_len(output.value as nat, 8);
}

/// Equal outputs weigh as many times what one of them weighs as there are.
pub proof fn law_weight_of_equal_outputs(output: TxOut, n: nat)
    ensures
        weight_of(Seq::new(n, |i: int| output)) == n * weight_of(seq![output]),
    decreases n,
{
    let outputs = Seq::new(n, |i: int| output);
    if n == 0 {
        assert(outputs =~= Seq::empty());
        assert(0 * weight_of(seq![output]) == 0) by (nonlinear_arith);
    } else {
        let less = (n - 1) as nat;
        law_weight_of_equal_outputs(output, less);
        assert(outputs =~= Seq::new(less, |i: int| output) + seq![output]);
        law_weights_add_up(Seq::new(less, |i: int| output), seq![output]);
        assert(n * weight_of(seq![output]) == less * weight_of(seq![output]) + weight_of(
            seq![output],
        )) by (nonlinear_arith)
            requires
                n == less + 1,
        ;
    }
}

/// The outputs are chosen from the front, without a gap, and nothing is lost or made up: what they
/// are worth is what goes to the outputs, to the change and to the fee. Change is worth more than
/// 660 satoshis. How many are chosen, and what the change is worth, is what the coin selection gives
/// for the values of the available outputs, the sum of the outputs' values, their weight, their
/// number and the rate.
pub proof fn law_selection(
    utxos: Seq<(OutPoint, TxOut)>,
    outputs: Seq<TxOut>,
    rate: FeeRate,
    res: Result<InputSelection, SelectionError>,
)
    requires
        selectable(utxos, outputs, rate),
        picked(utxos, outputs, rate, res),
    ensures
        ({
            let values = Seq::new(utxos.len(), |i: int| utxos[i].1.value);
            let value_sum = sum(Seq::new(outputs.len(), |i: int| outputs[i].value));
            let count = coin_count(
                values,
                value_sum as u64,
                weight_of(outputs) as u64,
                outputs.len() as usize,
                rate.fee,
                rate.vbytes,
            );
            &&& count matches Err(missing) ==> res == Err::<InputSelection, _>(
                SelectionError::InsufficientFunds { missing },
            )
            &&& count matches Ok(n) ==> {
                &&& res matches Ok(selection)
                &&& selection.selected_utxos@.len() == n <= utxos.len()
                &&& forall|i: int|
                    0 <= i < n ==> #[trigger] selection.selected_utxos@[i] == utxos[i].0
                &&& selection.change == drain_value(
                    values.take(n as int),
                    value_sum as u64,
                    weight_of(outputs) as u64,
                    outputs.len() as usize,
                    rate.fee,
                    rate.vbytes,
                    660,
                )
                &&& selection.change == 0 || selection.change > 660
                &&& sum(Seq::new(n as nat, |i: int| utxos[i].1.value)) == value_sum
                    + selection.change + selection.fee
            }
        }),
{
    assert(values_of(utxos) =~= Seq::new(utxos.len(), |i: int| utxos[i].1.value));
    assert(output_values(outputs) =~= Seq::new(outputs.len(), |i: int| outputs[i].value));
    let count = coin_count(
        values_of(utxos),
        sum(output_values(outputs)) as u64,
        weight_of(outputs) as u64,
        outputs.len() as usize,
        rate.fee,
        rate.vbytes,
    );
    if let Ok(n) = count {
        assert(values_of(utxos).take(n as int) =~= Seq::new(
            n as nat,
            |i: int| utxos[i].1.value,
        ));
        assert forall|i: int| 0 <= i < n implies #[trigger] res->Ok_0.selected_utxos@[i]
            == utxos[i].0 by {
            assert(outpoints_of(utxos).take(n as int)[i] == utxos[i].0);
        }
    }
}

/// What the settling of a selection gives is where it was selected: each outpoint is that of the
/// available output that the index names, and each value too.
pub proof fn law_selected(utxos: Seq<(OutPoint, TxOut)>, selected: Seq<usize>, i: int)
    requires
        indices_valid(selected, utxos.len()),
        0 <= i < selected.len(),
    ensures
        selected[i] < utxos.len(),
        selected_values(utxos, selected).len() == selected.len(),
        selected_values(utxos, selected)[i] == utxos[selected[i] as int].1.value,
        selected_outpoints(utxos, selected).len() == selected.len(),
        selected_outpoints(utxos, selected)[i] == utxos[selected[i] as int].0,
{
}

/// The text of missing funds says how many satoshis are missing, whatever the number.
pub proof fn law_missing_text(missing: u64)
    ensures
        selection_text(SelectionError::InsufficientFunds { missing })
            == "Insufficient funds. Missing "@ + text::decimal(missing as nat) + " sats."@,
{
}

/// Amounts of money as there are, and transactions and rates of fees far beyond what there are, are
/// within the limits.
pub proof fn law_limits_are_wide(
    values: Seq<u64>,
    value_sum: nat,
    weight_sum: nat,
    rate: FeeRate,
)
    requires
        sum(values) <= 2_100_000_000_000_000,
        value_sum <= 2_100_000_000_000_000,
        weight_sum <= 4_000_000,
        values.len() <= 1_000_000,
        rate.vbytes > 0,
        rate.fee <= 1_000_000_000 * rate.vbytes,
    ensures
        within_limits(values, value_sum, weight_sum, rate),
{
    let weight = weight_sum + 230 * values.len() + 1000;
    assert(weight * rate.fee <= 300_000_000 * (1_000_000_000 * rate.vbytes)) by (nonlinear_arith)
        requires
            0 <= weight <= 300_000_000,
            0 <= rate.fee <= 1_000_000_000 * rate.vbytes,
    ;
}

} // verus!
