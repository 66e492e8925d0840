//! The pool: reserves of the native asset and of one fungible token, the
//! shares outstanding, and the operations that move them.
use crate::ledger::{add_to_collection, ShareLedger};
use crate::wide::{
    div_pair, lemma_div_split, lemma_pair_high, mul_div, mul_div_rem, mul_wide, pair_value,
    word_base,
};
use vstd::arithmetic::div_mod::*;
use vstd::arithmetic::mul::*;
use vstd::prelude::*;
use vstd::string::StringExecFns;

verus! {

/// Fees are charged in thousandths of the input.
pub const FEE_DIVISOR: u32 = 1000;

/// Why an operation was refused. A refused operation changes nothing.
#[derive(Debug, Clone, Copy, PartialEq, Eq, Structural)]
pub enum PoolError {
    EmptyDeposit,
    FeeTooLarge,
    AlreadyInitialized,
    EmptyReserve,
    NotEnoughDeclaredToken,
    EmptyShares,
    BelowMinimumAmount,
    InsufficientShareBalance,
    BelowMinimumTokensBought,
    BelowMinimumNativeBought,
    WrongTokenSource,
    Overflow,
}

/// Output of a swap of `a` units into a pool with input reserve `x` and
/// output reserve `y`, the fee taken from the input, rounded down.
pub open spec fn input_price(a: int, x: int, y: int, fee: int) -> int {
    (a * (1000 - fee) * y) / ((x + a) * 1000)
}

/// Input needed to take `a` units out of a pool with input reserve `x` and
/// output reserve `y`, the fee included, rounded down.
pub open spec fn output_price(a: int, x: int, y: int, fee: int) -> int {
    (x * a * 1000) / ((y - a) * (1000 - fee))
}

/// `amount` scaled by `part / whole`, rounded down: the tokens owed for a
/// deposit, the shares minted for it, and the payout for burnt shares.
pub open spec fn proportion(amount: int, part: int, whole: int) -> int {
    (amount * part) / whole
}

/// The pool state. `shares` holds each provider's shares.
pub struct Contract {
    pub token_account_id: String,
    pub fee: u32,
    pub shares: ShareLedger,
    pub shares_total_supply: u128,
    pub near_amount: u128,
    pub lp_token_amount: u128,
}

/// What a deposit of `n` native units with `declared` tokens does to the pool
/// `pre`, leaving `post` and returning `r`: the first deposit sets the price,
/// later ones must bring tokens in proportion and mint shares in proportion.
pub open spec fn deposit_spec(
    pre: Contract,
    post: Contract,
    sender: Seq<char>,
    n: u128,
    declared: u128,
    r: Result<u128, PoolError>,
) -> bool {
    let e = proportion(n as int, pre.lp_token_amount as int, pre.near_amount as int);
    let m = proportion(n as int, pre.shares_total_supply as int, pre.near_amount as int);
    let minted: int = if pre.shares_total_supply == 0 {
        n as int
    } else {
        m
    };
    let outcome: Result<u128, PoolError> = if n == 0 {
        Err(PoolError::EmptyDeposit)
    } else if pre.shares_total_supply == 0 {
        Ok(declared)
    } else if e > declared {
        Err(PoolError::NotEnoughDeclaredToken)
    } else if pre.shares_total_supply + m > u128::MAX || pre.near_amount + n > u128::MAX
        || pre.lp_token_amount + e > u128::MAX {
        Err(PoolError::Overflow)
    } else {
        Ok(e as u128)
    };
    &&& r == outcome
    &&& r is Err ==> post == pre
    &&& r matches Ok(v) ==> {
        &&& post.token_account_id == pre.token_account_id
        &&& post.fee == pre.fee
        &&& post.shares_total_supply == pre.shares_total_supply + minted
        &&& post.near_amount == pre.near_amount + n
        &&& post.lp_token_amount == pre.lp_token_amount + v
        &&& post.shares.balance(sender) == pre.shares.balance(sender) + minted
        &&& forall|a: Seq<char>|
            a != sender ==> #[trigger] post.shares.balance(a) == pre.shares.balance(a)
    }
}

impl Contract {
    /// The pool is empty on both sides or holds native units and shares, and
    /// the ledger accounts for exactly the shares outstanding.
    pub open spec fn wf(&self) -> bool {
        &&& self.fee < FEE_DIVISOR
        &&& self.shares.wf()
        &&& self.shares.total() == self.shares_total_supply
        &&& (self.shares_total_supply == 0 <==> self.near_amount == 0)
        &&& (self.shares_total_supply == 0 ==> self.lp_token_amount == 0)
    }

    /// Shares, native reserve and token reserve are all zero or all positive.
    pub open spec fn co_null(&self) -> bool {
        &&& (self.shares_total_supply == 0 <==> self.near_amount == 0)
        &&& (self.shares_total_supply == 0 <==> self.lp_token_amount == 0)
    }

    /// An empty pool trading against the token ledger `token_account_id`,
    /// charging `fee` thousandths on swap inputs.
    pub fn new(token_account_id: String, fee: u32) -> (r: Result<Contract, PoolError>)
        ensures
            fee >= FEE_DIVISOR <==> r == Err::<Contract, PoolError>(PoolError::FeeTooLarge),
            fee < FEE_DIVISOR <==> r is Ok,
            r matches Ok(c) ==> {
                &&& c.wf()
                &&& c.co_null()
                &&& c.token_account_id == token_account_id
                &&& c.fee == fee
                &&& c.shares_total_supply == 0
                &&& c.near_amount == 0
                &&& c.lp_token_amount == 0
                &&& forall|a: Seq<char>| #[trigger] c.shares.balance(a) == 0
            },
    {
        if fee >= FEE_DIVISOR {
            return Err(PoolError::FeeTooLarge);
        }
        Ok(
            Contract {
                token_account_id,
                fee,
                shares: ShareLedger::new(),
                shares_total_supply: 0,
                near_amount: 0,
                lp_token_amount: 0,
            },
        )
    }

    /// Output of swapping `input_amount` against the reserves given, the fee
    /// deducted from the input and the result rounded down. The sum of input
    /// and reserve is taken in 256 bits, so every non-empty quote is given.
    pub fn get_input_price(&self, input_amount: u128, input_reserve: u128, output_reserve: u128) -> (r:
        Result<u128, PoolError>)
        requires
            self.fee < FEE_DIVISOR,
        ensures
            r == (if input_reserve == 0 || output_reserve == 0 {
                Err(PoolError::EmptyReserve)
            } else {
                Ok(
                    input_price(
                        input_amount as int,
                        input_reserve as int,
                        output_reserve as int,
                        self.fee as int,
                    ) as u128,
                )
            }),
            r matches Ok(v) ==> v < output_reserve,
            input_reserve > 0 && output_reserve > 0 ==> 0 <= input_price(
                input_amount as int,
                input_reserve as int,
                output_reserve as int,
                self.fee as int,
            ) < output_reserve,
    {
        if input_reserve == 0 || output_reserve == 0 {
            return Err(PoolError::EmptyReserve);
        }
        let ghost (a, x, y) = (input_amount as int, input_reserve as int, output_reserve as int);
        let ghost di = x + a;
        proof {
            lemma_input_price_bound(a, x, y, self.fee as int);
            assert(a * y < (x + a) * y) by (nonlinear_arith)
                requires
                    x > 0,
                    a >= 0,
                    y > 0,
            ;
            lemma_multiply_divide_lt(a * y, x + a, y);
            lemma_mul_nonnegative(a, y);
        }
        let dp: (u128, u128) = if input_amount > u128::MAX - input_reserve {
            (1, input_amount - (u128::MAX - input_reserve) - 1)
        } else {
            (0, input_reserve + input_amount)
        };
        assert(pair_value(dp) == di);
        let k = (FEE_DIVISOR - self.fee) as u128;
        let ghost ki = k as int;
        let (qp, rp) = div_pair(mul_wide(input_amount, output_reserve), dp);
        proof {
            lemma_pair_high(qp, 1);
            lemma_pair_high(rp, 2);
            lemma_fundamental_div_mod(a * y, di);
            lemma_mod_pos_bound(a * y, di);
        }
        let q = qp.1;
        let (h, l) = mul_wide(k, rp.1);
        proof {
            assert(ki * rp.1 < 1000 * word_base()) by (nonlinear_arith)
                requires
                    0 < ki <= 1000,
                    0 <= rp.1 < word_base(),
            ;
            lemma_pair_high((h, l), 1000);
            assert(ki * rp.0 <= 1000) by (nonlinear_arith)
                requires
                    0 < ki <= 1000,
                    0 <= rp.0 < 2,
            ;
        }
        let krp: (u128, u128) = (h + k * rp.0, l);
        let ghost ri = pair_value(rp);
        proof {
            assert(pair_value(krp) == ki * ri) by (nonlinear_arith)
                requires
                    pair_value(krp) == (h + ki * rp.0) * word_base() + l,
                    h * word_base() + l == ki * rp.1,
                    ri == rp.0 * word_base() + rp.1,
            ;
            lemma_mul_strict_inequality(ri, di, ki);
            lemma_mul_is_commutative(ki, di);
            lemma_mul_nonnegative(ki, ri);
            lemma_multiply_divide_lt(ki * ri, di, ki);
        }
        let (sp, _) = div_pair(krp, dp);
        proof {
            lemma_pair_high(sp, 1);
        }
        let s = sp.1;
        let q1 = q / 1000;
        let q0 = q % 1000;
        proof {
            lemma_fundamental_div_mod(q as int, 1000);
            lemma_mul_inequality(ki, 1000, q1 as int);
            lemma_mul_inequality(ki, 1000, q0 as int);
        }
        let v = k * q1 + (k * q0 + s) / 1000;
        proof {
            let (qi, si, q1i, q0i) = (q as int, s as int, q1 as int, q0 as int);
            assert(a * ki * y == (ki * qi) * di + ki * ri) by (nonlinear_arith)
                requires
                    a * y == di * qi + ri,
            ;
            lemma_div_split(ki * qi, ki * ri, di);
            lemma_div_denominator(a * ki * y, di, 1000);
            assert(ki * qi + si == (ki * q1i) * 1000 + (ki * q0i + si)) by (nonlinear_arith)
                requires
                    qi == 1000 * q1i + q0i,
            ;
            lemma_div_split(ki * q1i, ki * q0i + si, 1000);
            assert(a * (1000 - self.fee as int) * y == a * ki * y);
        }
        Ok(v)
    }

    /// Input needed, fee included, to take `output_amount` out of the reserves
    /// given, rounded down.
    pub fn get_output_price(&self, output_amount: u128, input_reserve: u128, output_reserve: u128) -> (r:
        Result<u128, PoolError>)
        requires
            self.fee < FEE_DIVISOR,
        ensures
            r == (if input_reserve == 0 || output_reserve <= output_amount {
                Err(PoolError::EmptyReserve)
            } else if output_price(
                output_amount as int,
                input_reserve as int,
                output_reserve as int,
                self.fee as int,
            ) > u128::MAX {
                Err(PoolError::Overflow)
            } else {
                Ok(
                    output_price(
                        output_amount as int,
                        input_reserve as int,
                        output_reserve as int,
                        self.fee as int,
                    ) as u128,
                )
            }),
    {
        if input_reserve == 0 || output_reserve <= output_amount {
            return Err(PoolError::EmptyReserve);
        }
        let d = output_reserve - output_amount;
        let k = (FEE_DIVISOR - self.fee) as u128;
        let ghost (x, a, di, ki) = (input_reserve as int, output_amount as int, d as int, k as int);
        let ghost price = output_price(a, x, output_reserve as int, self.fee as int);
        proof {
            assert(price == (x * a * 1000) / (di * ki));
            lemma_mul_nonnegative(x, a);
            lemma_div_denominator(x * a * 1000, di, ki);
            lemma_div_denominator(x * a * ki, ki, di);
            lemma_mul_is_commutative(ki, di);
            assert((x * a * ki) / ki == x * a) by {
                lemma_div_multiples_vanish(x * a, ki);
                lemma_mul_is_commutative(x * a, ki);
            }
            lemma_mul_inequality(ki, 1000, x * a);
            lemma_mul_is_commutative(ki, x * a);
            lemma_div_is_ordered(x * a * ki, x * a * 1000, di * ki);
        }
        let (q, rem) = match mul_div_rem(input_reserve, output_amount, d) {
            Some(p) => p,
            None => {
                return Err(PoolError::Overflow);
            },
        };
        proof {
            lemma_fundamental_div_mod(x * a, di);
            lemma_mod_pos_bound(x * a, di);
            lemma_mul_strict_inequality(rem as int, di, 1000);
            lemma_mul_is_commutative(1000, di);
            lemma_multiply_divide_lt(1000 * rem as int, di, 1000);
        }
        let s = match mul_div(1000, rem, d) {
            Some(v) => v,
            None => {
                return Err(PoolError::Overflow);
            },
        };
        let q1 = q / k;
        let q0 = q % k;
        proof {
            let (qi, ri, si, q1i, q0i) = (q as int, rem as int, s as int, q1 as int, q0 as int);
            lemma_fundamental_div_mod(qi, ki);
            lemma_mod_pos_bound(qi, ki);
            assert(x * a * 1000 == (1000 * qi) * di + 1000 * ri) by (nonlinear_arith)
                requires
                    x * a == di * qi + ri,
            ;
            lemma_div_split(1000 * qi, 1000 * ri, di);
            assert(1000 * qi + si == (1000 * q1i) * ki + (1000 * q0i + si)) by (nonlinear_arith)
                requires
                    qi == ki * q1i + q0i,
            ;
            lemma_div_split(1000 * q1i, 1000 * q0i + si, ki);
            lemma_mul_inequality(q0i, ki, 1000);
            lemma_div_pos_is_pos(1000 * q0i + si, ki);
        }
        if q1 > u128::MAX / 1000 {
            return Err(PoolError::Overflow);
        }
        let high = 1000 * q1;
        let low = (1000 * q0 + s) / k;
        if low > u128::MAX - high {
            return Err(PoolError::Overflow);
        }
        Ok(high + low)
    }

    /// Native units needed, fee included, to buy `amount` tokens.
    pub fn get_near_to_token_price(&self, amount: u128) -> (r: Result<u128, PoolError>)
        requires
            self.fee < FEE_DIVISOR,
        ensures
            r == (if self.near_amount == 0 || self.lp_token_amount <= amount {
                Err(PoolError::EmptyReserve)
            } else if output_price(
                amount as int,
                self.near_amount as int,
                self.lp_token_amount as int,
                self.fee as int,
            ) > u128::MAX {
                Err(PoolError::Overflow)
            } else {
                Ok(
                    output_price(
                        amount as int,
                        self.near_amount as int,
                        self.lp_token_amount as int,
                        self.fee as int,
                    ) as u128,
                )
            }),
    {
        self.get_output_price(amount, self.near_amount, self.lp_token_amount)
    }

    /// Tokens needed, fee included, to buy `amount` native units.
    pub fn get_token_to_near_price(&self, amount: u128) -> (r: Result<u128, PoolError>)
        requires
            self.fee < FEE_DIVISOR,
        ensures
            r == (if self.lp_token_amount == 0 || self.near_amount <= amount {
                Err(PoolError::EmptyReserve)
            } else if output_price(
                amount as int,
                self.lp_token_amount as int,
                self.near_amount as int,
                self.fee as int,
            ) > u128::MAX {
                Err(PoolError::Overflow)
            } else {
                Ok(
                    output_price(
                        amount as int,
                        self.lp_token_amount as int,
                        self.near_amount as int,
                        self.fee as int,
                    ) as u128,
                )
            }),
    {
        self.get_output_price(amount, self.lp_token_amount, self.near_amount)
    }

    /// Deposits `near_amount` native units with `token_amount` tokens declared
    /// by `sender_id`, and returns the tokens the pool takes in.
    pub fn add_liquidity(&mut self, sender_id: &String, near_amount: u128, token_amount: u128) -> (r:
        Result<u128, PoolError>)
        requires
            old(self).wf(),
        ensures
            final(self).wf(),
            deposit_spec(*old(self), *final(self), sender_id@, near_amount, token_amount, r),
            old(self).co_null() && (old(self).shares_total_supply == 0 ==> token_amount > 0)
                ==> final(self).co_null(),
    {
        if near_amount == 0 {
            return Err(PoolError::EmptyDeposit);
        }
        proof {
            self.shares.lemma_balance_le_total(sender_id@);
        }
        if self.shares_total_supply > 0 {
            let expected = match mul_div(near_amount, self.lp_token_amount, self.near_amount) {
                Some(v) => v,
                None => {
                    return Err(PoolError::NotEnoughDeclaredToken);
                },
            };
            if expected > token_amount {
                return Err(PoolError::NotEnoughDeclaredToken);
            }
            let minted = match mul_div(near_amount, self.shares_total_supply, self.near_amount) {
                Some(v) => v,
                None => {
                    return Err(PoolError::Overflow);
                },
            };
            if minted > u128::MAX - self.shares_total_supply || near_amount > u128::MAX
                - self.near_amount || expected > u128::MAX - self.lp_token_amount {
                return Err(PoolError::Overflow);
            }
            add_to_collection(&mut self.shares, sender_id, minted);
            self.shares_total_supply = self.shares_total_supply + minted;
            self.near_amount = self.near_amount + near_amount;
            self.lp_token_amount = self.lp_token_amount + expected;
            Ok(expected)
        } else {
            add_to_collection(&mut self.shares, sender_id, near_amount);
            self.shares_total_supply = near_amount;
            self.near_amount = near_amount;
            self.lp_token_amount = token_amount;
            Ok(token_amount)
        }
    }

    /// Burns `shares` of `account_id` for its proportional part of both
    /// reserves, rounded down; refused below `min_near_amount` native units or
    /// `min_token_amount` tokens. Returns the native units and tokens owed.
    pub fn remove_liquidity(
        &mut self,
        account_id: &String,
        shares: u128,
        min_near_amount: u128,
        min_token_amount: u128,
    ) -> (r: Result<(u128, u128), PoolError>)
        requires
            old(self).wf(),
        ensures
            final(self).wf(),
            old(self).co_null() ==> final(self).co_null(),
            r is Err ==> *final(self) == *old(self),
            ({
                let pre = *old(self);
                let near_out = proportion(
                    shares as int,
                    pre.near_amount as int,
                    pre.shares_total_supply as int,
                );
                let token_out = proportion(
                    shares as int,
                    pre.lp_token_amount as int,
                    pre.shares_total_supply as int,
                );
                if shares == 0 || pre.shares_total_supply == 0 {
                    r == Err::<(u128, u128), PoolError>(PoolError::EmptyShares)
                } else if near_out < min_near_amount || token_out < min_token_amount {
                    r == Err::<(u128, u128), PoolError>(PoolError::BelowMinimumAmount)
                } else if pre.shares.balance(account_id@) < shares {
                    r == Err::<(u128, u128), PoolError>(PoolError::InsufficientShareBalance)
                } else {
                    &&& r == Ok::<(u128, u128), PoolError>((near_out as u128, token_out as u128))
                    &&& final(self).token_account_id == pre.token_account_id
                    &&& final(self).fee == pre.fee
                    &&& final(self).shares_total_supply == pre.shares_total_supply - shares
                    &&& final(self).near_amount == pre.near_amount - near_out
                    &&& final(self).lp_token_amount == pre.lp_token_amount - token_out
                    &&& final(self).shares.balance(account_id@) == pre.shares.balance(account_id@)
                        - shares
                    &&& forall|a: Seq<char>|
                        a != account_id@ ==> #[trigger] final(self).shares.balance(a)
                            == pre.shares.balance(a)
                }
            }),
    {
        if shares == 0 || self.shares_total_supply == 0 {
            return Err(PoolError::EmptyShares);
        }
        // A payout that does not fit in 128 bits is above any minimum.
        let near_quote = mul_div(shares, self.near_amount, self.shares_total_supply);
        let token_quote = mul_div(shares, self.lp_token_amount, self.shares_total_supply);
        let near_short = match near_quote {
            Some(v) => v < min_near_amount,
            None => false,
        };
        let token_short = match token_quote {
            Some(v) => v < min_token_amount,
            None => false,
        };
        if near_short || token_short {
            return Err(PoolError::BelowMinimumAmount);
        }
        let prev = self.shares.get(account_id);
        if prev < shares {
            return Err(PoolError::InsufficientShareBalance);
        }
        proof {
            self.shares.lemma_balance_le_total(account_id@);
            lemma_payout_bounds(
                shares as int,
                self.near_amount as int,
                self.shares_total_supply as int,
            );
            lemma_payout_bounds(
                shares as int,
                self.lp_token_amount as int,
                self.shares_total_supply as int,
            );
        }
        let (near_out, token_out) = match (near_quote, token_quote) {
            (Some(n), Some(t)) => (n, t),
            _ => {
                proof {
                    assert(false);
                }
                return Err(PoolError::InsufficientShareBalance);
            },
        };
        self.shares.debit(account_id, shares);
        self.shares_total_supply = self.shares_total_supply - shares;
        self.near_amount = self.near_amount - near_out;
        self.lp_token_amount = self.lp_token_amount - token_out;
        Ok((near_out, token_out))
    }

    /// Sells `payed_amount` native units for tokens; refused when fewer than
    /// `min_amount` tokens would come out. Returns the tokens bought.
    pub fn swap_near_to_token(&mut self, payed_amount: u128, min_amount: u128) -> (r: Result<
        u128,
        PoolError,
    >)
        requires
            old(self).wf(),
        ensures
            final(self).wf(),
            old(self).co_null() ==> final(self).co_null(),
            r is Err ==> *final(self) == *old(self),
            r == (if old(self).near_amount == 0 || old(self).lp_token_amount == 0 {
                Err(PoolError::EmptyReserve)
            } else if input_price(
                payed_amount as int,
                old(self).near_amount as int,
                old(self).lp_token_amount as int,
                old(self).fee as int,
            ) < min_amount {
                Err(PoolError::BelowMinimumTokensBought)
            } else if old(self).near_amount + payed_amount > u128::MAX {
                Err(PoolError::Overflow)
            } else {
                Ok(
                    input_price(
                        payed_amount as int,
                        old(self).near_amount as int,
                        old(self).lp_token_amount as int,
                        old(self).fee as int,
                    ) as u128,
                )
            }),
            r matches Ok(v) ==> {
                &&& final(self).token_account_id == old(self).token_account_id
                &&& final(self).fee == old(self).fee
                &&& final(self).shares == old(self).shares
                &&& final(self).shares_total_supply == old(self).shares_total_supply
                &&& final(self).near_amount == old(self).near_amount + payed_amount
                &&& final(self).lp_token_amount == old(self).lp_token_amount - v
            },
    {
        let tokens_bought = self.get_input_price(payed_amount, self.near_amount, self.lp_token_amount)?;
        if tokens_bought < min_amount {
            return Err(PoolError::BelowMinimumTokensBought);
        }
        if payed_amount > u128::MAX - self.near_amount {
            return Err(PoolError::Overflow);
        }
        self.near_amount = self.near_amount + payed_amount;
        self.lp_token_amount = self.lp_token_amount - tokens_bought;
        Ok(tokens_bought)
    }

    /// Sells `token_amount` tokens, already received by the pool, for native
    /// units; refused when fewer than `min_near_amount` would come out.
    /// Returns the native units bought.
    pub fn swap_token_to_near(&mut self, token_amount: u128, min_near_amount: u128) -> (r: Result<
        u128,
        PoolError,
    >)
        requires
            old(self).wf(),
        ensures
            final(self).wf(),
            old(self).co_null() ==> final(self).co_null(),
            r is Err ==> *final(self) == *old(self),
            r == (if old(self).lp_token_amount == 0 || old(self).near_amount == 0 {
                Err(PoolError::EmptyReserve)
            } else if input_price(
                token_amount as int,
                old(self).lp_token_amount as int,
                old(self).near_amount as int,
                old(self).fee as int,
            ) < min_near_amount {
                Err(PoolError::BelowMinimumNativeBought)
            } else if old(self).lp_token_amount + token_amount > u128::MAX {
                Err(PoolError::Overflow)
            } else {
                Ok(
                    input_price(
                        token_amount as int,
                        old(self).lp_token_amount as int,
                        old(self).near_amount as int,
                        old(self).fee as int,
                    ) as u128,
                )
            }),
            r matches Ok(v) ==> {
                &&& final(self).token_account_id == old(self).token_account_id
                &&& final(self).fee == old(self).fee
                &&& final(self).shares == old(self).shares
                &&& final(self).shares_total_supply == old(self).shares_total_supply
                &&& final(self).near_amount == old(self).near_amount - v
                &&& final(self).lp_token_amount == old(self).lp_token_amount + token_amount
            },
    {
        let near_bought = self.get_input_price(token_amount, self.lp_token_amount, self.near_amount)?;
        if near_bought < min_near_amount {
            return Err(PoolError::BelowMinimumNativeBought);
        }
        if token_amount > u128::MAX - self.lp_token_amount {
            return Err(PoolError::Overflow);
        }
        self.near_amount = self.near_amount - near_bought;
        self.lp_token_amount = self.lp_token_amount + token_amount;
        Ok(near_bought)
    }

    /// Handles the token ledger's notice that `sender_id` sent it `amount`
    /// tokens for this pool. Only the configured token ledger may call. With
    /// `msg` "liquidity" the tokens go with a deposit of `attached_deposit`
    /// native units; otherwise nothing changes and `amount` is returned.
    pub fn ft_on_transfer(
        &mut self,
        predecessor_id: &String,
        sender_id: &String,
        amount: u128,
        msg: &String,
        attached_deposit: u128,
    ) -> (r: Result<u128, PoolError>)
        requires
            old(self).wf(),
        ensures
            final(self).wf(),
            predecessor_id@ != old(self).token_account_id@ ==> {
                &&& r == Err::<u128, PoolError>(PoolError::WrongTokenSource)
                &&& *final(self) == *old(self)
            },
            predecessor_id@ == old(self).token_account_id@ && msg@ == "liquidity"@ ==> deposit_spec(
                *old(self),
                *final(self),
                sender_id@,
                attached_deposit,
                amount,
                r,
            ),
            predecessor_id@ == old(self).token_account_id@ && msg@ != "liquidity"@ ==> {
                &&& r == Ok::<u128, PoolError>(amount)
                &&& *final(self) == *old(self)
            },
    {
        if *predecessor_id != self.token_account_id {
            return Err(PoolError::WrongTokenSource);
        }
        let tag = String::from_str("liquidity");
        if *msg == tag {
            self.add_liquidity(sender_id, attached_deposit, amount)
        } else {
            Ok(amount)
        }
    }

    /// Shares owned by `account_id`, zero when it has none.
    pub fn shares_balance(&self, account_id: &String) -> (r: u128)
        requires
            self.shares.wf(),
        ensures
            r as nat == self.shares.balance(account_id@),
    {
        self.shares.get(account_id)
    }
}

/// Depositing `n` native units into a funded pool and at once burning all the
/// shares that deposit minted pays back no more than `n` native units and no
/// more than the tokens the deposit took in.
pub proof fn lemma_round_trip(n: int, near: int, token: int, total: int)
    requires
        n > 0,
        near > 0,
        token >= 0,
        total > 0,
    ensures
        ({
            let taken = proportion(n, token, near);
            let minted = proportion(n, total, near);
            &&& proportion(minted, near + n, total + minted) <= n
            &&& proportion(minted, token + taken, total + minted) <= taken
        }),
{
    let e = proportion(n, token, near);
    let m = proportion(n, total, near);
    lemma_mul_nonnegative(n, total);
    lemma_mul_nonnegative(n, token);
    lemma_div_pos_is_pos(n * total, near);
    lemma_div_pos_is_pos(n * token, near);
    lemma_fundamental_div_mod(n * total, near);
    lemma_mod_pos_bound(n * total, near);
    lemma_fundamental_div_mod(n * token, near);
    lemma_mod_pos_bound(n * token, near);
    assert(m * near <= n * total) by (nonlinear_arith)
        requires
            n * total == near * m + (n * total) % near,
            (n * total) % near >= 0,
    ;
    assert(n * token < near * (e + 1)) by (nonlinear_arith)
        requires
            n * token == near * e + (n * token) % near,
            (n * token) % near < near,
    ;
    assert(m * (near + n) <= (total + m) * n) by (nonlinear_arith)
        requires
            m * near <= n * total,
    ;
    lemma_multiply_divide_le(m * (near + n), total + m, n);
    assert((m * token) * near < (total * (e + 1)) * near) by (nonlinear_arith)
        requires
            m * near <= n * total,
            n * token < near * (e + 1),
            m >= 0,
            token >= 0,
            total > 0,
    ;
    assert(m * token < total * (e + 1)) by (nonlinear_arith)
        requires
            (m * token) * near < (total * (e + 1)) * near,
            near > 0,
    ;
    assert(m * (token + e) < (total + m) * (e + 1)) by (nonlinear_arith)
        requires
            m * token < total * (e + 1),
            m >= 0,
    ;
    lemma_multiply_divide_lt(m * (token + e), total + m, e + 1);
}

/// On an empty pool, burning the shares of the first deposit at once pays
/// back exactly the native units and the tokens deposited.
pub proof fn lemma_round_trip_first_deposit(n: int, declared: int)
    requires
        n > 0,
        declared >= 0,
    ensures
        proportion(n, n, n) == n,
        proportion(n, declared, n) == declared,
{
    lemma_div_multiples_vanish(n, n);
    lemma_div_multiples_vanish(declared, n);
    lemma_mul_is_commutative(n, declared);
}

/// Burning `s` of `t` shares pays out at most the whole reserve `v`, all of
/// it exactly when every share is burnt, and less when some remain.
proof fn lemma_payout_bounds(s: int, v: int, t: int)
    requires
        0 < s <= t,
        v >= 0,
    ensures
        0 <= proportion(s, v, t) <= v,
        s == t ==> proportion(s, v, t) == v,
        s < t && v > 0 ==> proportion(s, v, t) < v,
{
    lemma_mul_nonnegative(s, v);
    lemma_div_pos_is_pos(s * v, t);
    lemma_mul_inequality(s, t, v);
    lemma_mul_is_commutative(t, v);
    lemma_multiply_divide_le(s * v, t, v);
    if s == t {
        lemma_div_multiples_vanish(v, t);
    }
    if s < t && v > 0 {
        lemma_mul_strict_inequality(s, t, v);
        lemma_multiply_divide_lt(s * v, t, v);
    }
}

/// The fee never raises a swap's output above the fee-free, zero-slippage
/// quote `a * y / x`, nor above `a * y / (x + a)`.
pub proof fn lemma_input_price_bound(a: int, x: int, y: int, fee: int)
    requires
        0 <= fee < 1000,
        x > 0,
        y > 0,
        a >= 0,
    ensures
        0 <= input_price(a, x, y, fee) <= (a * y) / (x + a),
        input_price(a, x, y, fee) <= (a * y) / x,
{
    let k = 1000 - fee;
    lemma_mul_nonnegative(a, y);
    lemma_mul_nonnegative(a * k, y);
    assert(a * k * y <= (a * y) * 1000) by (nonlinear_arith)
        requires
            0 < k <= 1000,
            a >= 0,
            y > 0,
    ;
    lemma_mul_is_commutative(x + a, 1000);
    lemma_div_is_ordered(a * k * y, (a * y) * 1000, (x + a) * 1000);
    lemma_div_denominator(a * y * 1000, 1000, x + a);
    assert((a * y * 1000) / 1000 == a * y) by {
        lemma_div_multiples_vanish(a * y, 1000);
        lemma_mul_is_commutative(a * y, 1000);
    }
    lemma_div_pos_is_pos(a * k * y, (x + a) * 1000);
    lemma_div_is_ordered_by_denominator(a * y, x, x + a);
}

/// A larger fee never gives a larger swap output.
pub proof fn lemma_input_price_fee_monotone(a: int, x: int, y: int, fee1: int, fee2: int)
    requires
        0 <= fee1 <= fee2 < 1000,
        x > 0,
        y > 0,
        a >= 0,
    ensures
        input_price(a, x, y, fee2) <= input_price(a, x, y, fee1),
{
    assert(a * (1000 - fee2) * y <= a * (1000 - fee1) * y) by (nonlinear_arith)
        requires
            0 <= fee1 <= fee2 < 1000,
            a >= 0,
            y > 0,
    ;
    assert((x + a) * 1000 > 0) by (nonlinear_arith)
        requires
            x > 0,
            a >= 0,
    ;
    lemma_div_is_ordered(a * (1000 - fee2) * y, a * (1000 - fee1) * y, (x + a) * 1000);
}

} // verus!
