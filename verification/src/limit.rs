use vstd::prelude::*;
use vstd::arithmetic::power2::{lemma2_to64, lemma_pow2_adds, pow2};
use crate::numeral::{
    decimal_value, digit_value, lemma_value_concat, limit, limit_digits, pow10,
};

verus! {

/// Ten to the power 18.
proof fn lemma_pow10_of_18()
    ensures
        pow10(18) == 1_000_000_000_000_000_000,
{
    reveal_with_fuel(pow10, 19);
}

/// The value of a text with the next eighteen characters behind it.
proof fn lemma_value_with_chunk(s: Seq<char>, at: int)
    requires
        0 <= at,
        at + 18 <= s.len(),
    ensures
        decimal_value(s.take(at + 18)) == decimal_value(s.take(at)) * 1_000_000_000_000_000_000
            + decimal_value(s.subrange(at, at + 18)),
{
    lemma_pow10_of_18();
    assert(s.take(at + 18) =~= s.take(at) + s.subrange(at, at + 18));
    lemma_value_concat(s.take(at), s.subrange(at, at + 18));
}

/// The text of the limit, three and then eighteen characters at a time.
proof fn lemma_limit_text()
    ensures
        limit_digits().len() == 309,
        limit_digits().take(3) == "179"@,
        limit_digits().subrange(3, 21) == "769313486231580793"@,
        limit_digits().subrange(21, 39) == "728971405303415079"@,
        limit_digits().subrange(39, 57) == "934132710037826936"@,
        limit_digits().subrange(57, 75) == "173778980444968292"@,
        limit_digits().subrange(75, 93) == "764750946649017977"@,
        limit_digits().subrange(93, 111) == "587207096330286416"@,
        limit_digits().subrange(111, 129) == "692887910946555547"@,
        limit_digits().subrange(129, 147) == "851940402630657488"@,
        limit_digits().subrange(147, 165) == "671505820681908902"@,
        limit_digits().subrange(165, 183) == "000708383676273854"@,
        limit_digits().subrange(183, 201) == "845817711531764475"@,
        limit_digits().subrange(201, 219) == "730270069855571366"@,
        limit_digits().subrange(219, 237) == "959622842914819860"@,
        limit_digits().subrange(237, 255) == "834936475292719074"@,
        limit_digits().subrange(255, 273) == "168444365510704342"@,
        limit_digits().subrange(273, 291) == "711559699508093042"@,
        limit_digits().subrange(291, 309) == "880177904174497792"@,
{
    let d = limit_digits();
    reveal_strlit(
        "179769313486231580793728971405303415079934132710037826936173778980444968292764750946649017977587207096330286416692887910946555547851940402630657488671505820681908902000708383676273854845817711531764475730270069855571366959622842914819860834936475292719074168444365510704342711559699508093042880177904174497792",
    );
    reveal_strlit("179");
    assert(d.take(3) =~= "179"@);
    reveal_strlit("769313486231580793");
    assert(d.subrange(3, 21) =~= "769313486231580793"@);
    reveal_strlit("728971405303415079");
    assert(d.subrange(21, 39) =~= "728971405303415079"@);
    reveal_strlit("934132710037826936");
    assert(d.subrange(39, 57) =~= "934132710037826936"@);
    reveal_strlit("173778980444968292");
    assert(d.subrange(57, 75) =~= "173778980444968292"@);
    reveal_strlit("764750946649017977");
    assert(d.subrange(75, 93) =~= "764750946649017977"@);
    reveal_strlit("587207096330286416");
    assert(d.subrange(93, 111) =~= "587207096330286416"@);
    reveal_strlit("692887910946555547");
    assert(d.subrange(111, 129) =~= "692887910946555547"@);
    reveal_strlit("851940402630657488");
    assert(d.subrange(129, 147) =~= "851940402630657488"@);
    reveal_strlit("671505820681908902");
    assert(d.subrange(147, 165) =~= "671505820681908902"@);
    reveal_strlit("000708383676273854");
    assert(d.subrange(165, 183) =~= "000708383676273854"@);
    reveal_strlit("845817711531764475");
    assert(d.subrange(183, 201) =~= "845817711531764475"@);
    reveal_strlit("730270069855571366");
    assert(d.subrange(201, 219) =~= "730270069855571366"@);
    reveal_strlit("959622842914819860");
    assert(d.subrange(219, 237) =~= "959622842914819860"@);
    reveal_strlit("834936475292719074");
    assert(d.subrange(237, 255) =~= "834936475292719074"@);
    reveal_strlit("168444365510704342");
    assert(d.subrange(255, 273) =~= "168444365510704342"@);
    reveal_strlit("711559699508093042");
    assert(d.subrange(273, 291) =~= "711559699508093042"@);
    reveal_strlit("880177904174497792");
    assert(d.subrange(291, 309) =~= "880177904174497792"@);
}

/// The value of a text of eighteen characters, digit by digit.
proof fn lemma_value_of_eighteen(s: Seq<char>)
    requires
        s.len() == 18,
    ensures
        decimal_value(s) == 100_000_000_000_000_000 * digit_value(s[0])
            + 10_000_000_000_000_000 * digit_value(s[1])
            + 1_000_000_000_000_000 * digit_value(s[2])
            + 100_000_000_000_000 * digit_value(s[3])
            + 10_000_000_000_000 * digit_value(s[4])
            + 1_000_000_000_000 * digit_value(s[5])
            + 100_000_000_000 * digit_value(s[6])
            + 10_000_000_000 * digit_value(s[7])
            + 1_000_000_000 * digit_value(s[8])
            + 100_000_000 * digit_value(s[9])
            + 10_000_000 * digit_value(s[10])
            + 1_000_000 * digit_value(s[11])
            + 100_000 * digit_value(s[12])
            + 10_000 * digit_value(s[13])
            + 1_000 * digit_value(s[14])
            + 100 * digit_value(s[15])
            + 10 * digit_value(s[16])
            + 1 * digit_value(s[17]),
{
    reveal_with_fuel(decimal_value, 19);
    assert(s.drop_last().len() == 17);
}

/// The digits of the limit, three and then eighteen at a time.
pub proof fn lemma_limit_digits()
    ensures
        limit_digits().len() == 309,
        limit_digits()[0] == '1',
        decimal_value(limit_digits().take(3)) == 179,
        decimal_value(limit_digits().subrange(3, 21)) == 769313486231580793,
        decimal_value(limit_digits().subrange(21, 39)) == 728971405303415079,
        decimal_value(limit_digits().subrange(39, 57)) == 934132710037826936,
        decimal_value(limit_digits().subrange(57, 75)) == 173778980444968292,
        decimal_value(limit_digits().subrange(75, 93)) == 764750946649017977,
        decimal_value(limit_digits().subrange(93, 111)) == 587207096330286416,
        decimal_value(limit_digits().subrange(111, 129)) == 692887910946555547,
        decimal_value(limit_digits().subrange(129, 147)) == 851940402630657488,
        decimal_value(limit_digits().subrange(147, 165)) == 671505820681908902,
        decimal_value(limit_digits().subrange(165, 183)) == 708383676273854,
        decimal_value(limit_digits().subrange(183, 201)) == 845817711531764475,
        decimal_value(limit_digits().subrange(201, 219)) == 730270069855571366,
        decimal_value(limit_digits().subrange(219, 237)) == 959622842914819860,
        decimal_value(limit_digits().subrange(237, 255)) == 834936475292719074,
        decimal_value(limit_digits().subrange(255, 273)) == 168444365510704342,
        decimal_value(limit_digits().subrange(273, 291)) == 711559699508093042,
        decimal_value(limit_digits().subrange(291, 309)) == 880177904174497792,
{
    let d = limit_digits();
    lemma_limit_text();
    assert(decimal_value("179"@) == 179) by {
        reveal_strlit("179");
        reveal_with_fuel(decimal_value, 4);
    }
    assert(d[0] == d.take(3)[0]);
    assert(d[0] == '1') by {
        reveal_strlit("179");
    }
    assert(decimal_value("769313486231580793"@) == 769313486231580793) by {
        reveal_strlit("769313486231580793");
        lemma_value_of_eighteen("769313486231580793"@);
    }
    assert(decimal_value("728971405303415079"@) == 728971405303415079) by {
        reveal_strlit("728971405303415079");
        lemma_value_of_eighteen("728971405303415079"@);
    }
    assert(decimal_value("934132710037826936"@) == 934132710037826936) by {
        reveal_strlit("934132710037826936");
        lemma_value_of_eighteen("934132710037826936"@);
    }
    assert(decimal_value("173778980444968292"@) == 173778980444968292) by {
        reveal_strlit("173778980444968292");
        lemma_value_of_eighteen("173778980444968292"@);
    }
    assert(decimal_value("764750946649017977"@) == 764750946649017977) by {
        reveal_strlit("764750946649017977");
        lemma_value_of_eighteen("764750946649017977"@);
    }
    assert(decimal_value("587207096330286416"@) == 587207096330286416) by {
        reveal_strlit("587207096330286416");
        lemma_value_of_eighteen("587207096330286416"@);
    }
    assert(decimal_value("692887910946555547"@) == 692887910946555547) by {
        reveal_strlit("692887910946555547");
        lemma_value_of_eighteen("692887910946555547"@);
    }
    assert(decimal_value("851940402630657488"@) == 851940402630657488) by {
        reveal_strlit("851940402630657488");
        lemma_value_of_eighteen("851940402630657488"@);
    }
    assert(decimal_value("671505820681908902"@) == 671505820681908902) by {
        reveal_strlit("671505820681908902");
        lemma_value_of_eighteen("671505820681908902"@);
    }
    assert(decimal_value("000708383676273854"@) == 708383676273854) by {
        reveal_strlit("000708383676273854");
        lemma_value_of_eighteen("000708383676273854"@);
    }
    assert(decimal_value("845817711531764475"@) == 845817711531764475) by {
        reveal_strlit("845817711531764475");
        lemma_value_of_eighteen("845817711531764475"@);
    }
    assert(decimal_value("730270069855571366"@) == 730270069855571366) by {
        reveal_strlit("730270069855571366");
        lemma_value_of_eighteen("730270069855571366"@);
    }
    assert(decimal_value("959622842914819860"@) == 959622842914819860) by {
        reveal_strlit("959622842914819860");
        lemma_value_of_eighteen("959622842914819860"@);
    }
    assert(decimal_value("834936475292719074"@) == 834936475292719074) by {
        reveal_strlit("834936475292719074");
        lemma_value_of_eighteen("834936475292719074"@);
    }
    assert(decimal_value("168444365510704342"@) == 168444365510704342) by {
        reveal_strlit("168444365510704342");
        lemma_value_of_eighteen("168444365510704342"@);
    }
    assert(decimal_value("711559699508093042"@) == 711559699508093042) by {
        reveal_strlit("711559699508093042");
        lemma_value_of_eighteen("711559699508093042"@);
    }
    assert(decimal_value("880177904174497792"@) == 880177904174497792) by {
        reveal_strlit("880177904174497792");
        lemma_value_of_eighteen("880177904174497792"@);
    }
}

/// Two to the powers 1024 and 970.
proof fn lemma_powers_of_two()
    ensures
        pow2(1024) == 179769313486231590772930519078902473361797697894230657273430081157732675805500963132708477322407536021120113879871393357658789768814416622492847430639474124377767893424865485276302219601246094119453082952085005768838150682342462881473913110540827237163350510684586298239947245938479716304835356329624224137216,
        pow2(970) == 9979201547673599058281863565184192830337256302177287707512736212186059459344820328924789827463178505446712234220962476219862189941967968303695858991424157101600028364755428382587688607221814935913266783722719619966654052275604351944444276342240220787535604534378780208211792476151720049639424,
{
    lemma2_to64();
    lemma_pow2_adds(64, 64);
    lemma_pow2_adds(128, 128);
    lemma_pow2_adds(256, 256);
    lemma_pow2_adds(512, 512);
    lemma_pow2_adds(64, 10);
    lemma_pow2_adds(128, 74);
    lemma_pow2_adds(256, 202);
    lemma_pow2_adds(512, 458);
    assert(pow2(128) == 340282366920938463463374607431768211456) by (nonlinear_arith)
        requires
            pow2(128) == pow2(64) * pow2(64),
            pow2(64) == 18446744073709551616,
    ;
    assert(pow2(256) == 115792089237316195423570985008687907853269984665640564039457584007913129639936) by (nonlinear_arith)
        requires
            pow2(256) == pow2(128) * pow2(128),
            pow2(128) == 340282366920938463463374607431768211456,
    ;
    assert(pow2(512) == 13407807929942597099574024998205846127479365820592393377723561443721764030073546976801874298166903427690031858186486050853753882811946569946433649006084096) by (nonlinear_arith)
        requires
            pow2(512) == pow2(256) * pow2(256),
            pow2(256) == 115792089237316195423570985008687907853269984665640564039457584007913129639936,
    ;
    assert(pow2(1024) == 179769313486231590772930519078902473361797697894230657273430081157732675805500963132708477322407536021120113879871393357658789768814416622492847430639474124377767893424865485276302219601246094119453082952085005768838150682342462881473913110540827237163350510684586298239947245938479716304835356329624224137216) by (nonlinear_arith)
        requires
            pow2(1024) == pow2(512) * pow2(512),
            pow2(512) == 13407807929942597099574024998205846127479365820592393377723561443721764030073546976801874298166903427690031858186486050853753882811946569946433649006084096,
    ;
    assert(pow2(74) == 18889465931478580854784) by (nonlinear_arith)
        requires
            pow2(74) == pow2(64) * pow2(10),
            pow2(64) == 18446744073709551616,
            pow2(10) == 1024,
    ;
    assert(pow2(202) == 6427752177035961102167848369364650410088811975131171341205504) by (nonlinear_arith)
        requires
            pow2(202) == pow2(128) * pow2(74),
            pow2(128) == 340282366920938463463374607431768211456,
            pow2(74) == 18889465931478580854784,
    ;
    assert(pow2(458) == 744282853678701455922507579277316643178128753343813693728245963960974631028119473486019635930893891134220822124816566203939432067701407744) by (nonlinear_arith)
        requires
            pow2(458) == pow2(256) * pow2(202),
            pow2(256) == 115792089237316195423570985008687907853269984665640564039457584007913129639936,
            pow2(202) == 6427752177035961102167848369364650410088811975131171341205504,
    ;
    assert(pow2(970) == 9979201547673599058281863565184192830337256302177287707512736212186059459344820328924789827463178505446712234220962476219862189941967968303695858991424157101600028364755428382587688607221814935913266783722719619966654052275604351944444276342240220787535604534378780208211792476151720049639424) by (nonlinear_arith)
        requires
            pow2(970) == pow2(512) * pow2(458),
            pow2(512) == 13407807929942597099574024998205846127479365820592393377723561443721764030073546976801874298166903427690031858186486050853753882811946569946433649006084096,
            pow2(458) == 744282853678701455922507579277316643178128753343813693728245963960974631028119473486019635930893891134220822124816566203939432067701407744,
    ;
}

/// The limit is two to the power 1024 less two to the power 970: the midpoint
/// between the largest finite double, which is two to the power 1024 less two to
/// the power 971, and two to the power 1024.
pub proof fn lemma_limit_is_midpoint()
    ensures
        limit() == pow2(1024) - pow2(970),
{
    let d = limit_digits();
    lemma_limit_digits();
    lemma_value_with_chunk(d, 3);
    lemma_value_with_chunk(d, 21);
    lemma_value_with_chunk(d, 39);
    lemma_value_with_chunk(d, 57);
    lemma_value_with_chunk(d, 75);
    lemma_value_with_chunk(d, 93);
    lemma_value_with_chunk(d, 111);
    lemma_value_with_chunk(d, 129);
    lemma_value_with_chunk(d, 147);
    lemma_value_with_chunk(d, 165);
    lemma_value_with_chunk(d, 183);
    lemma_value_with_chunk(d, 201);
    lemma_value_with_chunk(d, 219);
    lemma_value_with_chunk(d, 237);
    lemma_value_with_chunk(d, 255);
    lemma_value_with_chunk(d, 273);
    lemma_value_with_chunk(d, 291);
    assert(d.take(309) =~= d);
    lemma_powers_of_two();
}

} // verus!
