//! How hot the device may get.
use crate::target::elapsed;
use crate::text::{
    chars_of, contains, digits_of, holds, is_digit, is_white, law_number_round_trip, law_trimmed,
    lemma_digits, number, parse_u64, trim, trimmed,
};
use vstd::prelude::*;

verus! {

/// How often the temperature is read: every half second.
pub const TEMP_UPDATE_INTERVAL_NS: u128 = 500_000_000;

/// How hot the device may get before the frame rate is lowered.
#[derive(Debug, Copy, Clone, PartialEq, Eq, Structural)]
pub enum TemperatureThreshold {
    Disabled,
    Temp(u64),
}

impl TemperatureThreshold {
    /// The threshold as a temperature. No temperature is above a disabled one.
    pub open spec fn limit(self) -> u64 {
        match self {
            TemperatureThreshold::Disabled => u64::MAX,
            TemperatureThreshold::Temp(t) => t,
        }
    }
}

/// A sensor of the type `device_type` measures the processor.
pub fn is_core_sensor(device_type: &str) -> (b: bool)
    ensures
        b == (holds(device_type@, "cpu-"@) || holds(device_type@, "soc_max"@) || holds(
            device_type@,
            "mtktscpu"@,
        )),
{
    let text = chars_of(device_type);
    contains(&text, &chars_of("cpu-")) || contains(&text, &chars_of("soc_max")) || contains(
        &text,
        &chars_of("mtktscpu"),
    )
}

/// The temperature that `text` stands for, zero where it cannot be read.
pub open spec fn reading(text: Seq<char>) -> u64 {
    match number(trimmed(text), u64::MAX as nat) {
        Some(v) => v as u64,
        None => 0,
    }
}

/// The highest of the temperatures that `texts` stand for, zero where there are none.
pub open spec fn hottest(texts: Seq<String>) -> u64
    decreases texts.len(),
{
    if texts.len() == 0 {
        0
    } else if reading(texts.last()@) > hottest(texts.drop_last()) {
        reading(texts.last()@)
    } else {
        hottest(texts.drop_last())
    }
}

/// No temperature is above the highest, and the highest is one of them, if there are any.
pub proof fn law_hottest_is_maximum(texts: Seq<String>)
    ensures
        forall|i: int| 0 <= i < texts.len() ==> reading(#[trigger] texts[i]@) <= hottest(texts),
        texts.len() > 0 ==> exists|i: int|
            0 <= i < texts.len() && reading(#[trigger] texts[i]@) == hottest(texts),
    decreases texts.len(),
{
    if texts.len() > 0 {
        let rest = texts.drop_last();
        let n = texts.len() - 1;
        law_hottest_is_maximum(rest);
        assert(texts[n] == texts.last());
        assert forall|i: int| 0 <= i < texts.len() implies reading(#[trigger] texts[i]@) <= hottest(
            texts,
        ) by {
            if i < n {
                assert(rest[i] == texts[i]);
            }
        }
        if reading(texts[n]@) != hottest(texts) {
            if rest.len() > 0 {
                let i = choose|i: int|
                    0 <= i < rest.len() && reading(#[trigger] rest[i]@) == hottest(rest);
                assert(reading(texts[i]@) == hottest(texts));
            }
        }
    }
}

/// The temperature of the processor.
#[derive(Debug)]
pub struct Thermal {
    pub core_temperature: u64,
    pub last_temp_update_ns: u128,
}

impl Thermal {
    /// Nothing was read yet, so the first reading is due at once.
    pub fn new(now_ns: u128) -> (thermal: Self)
        requires
            now_ns >= TEMP_UPDATE_INTERVAL_NS,
        ensures
            thermal.core_temperature == 0,
            thermal.last_temp_update_ns == now_ns - TEMP_UPDATE_INTERVAL_NS,
            thermal.due(now_ns),
    {
        Thermal { core_temperature: 0, last_temp_update_ns: now_ns - TEMP_UPDATE_INTERVAL_NS }
    }

    /// The temperature is to be read.
    pub open spec fn due(self, now_ns: u128) -> bool {
        elapsed(self.last_temp_update_ns, now_ns) >= TEMP_UPDATE_INTERVAL_NS
    }

    /// The temperature is to be read.
    pub fn is_due(&self, now_ns: u128) -> (due: bool)
        ensures
            due == self.due(now_ns),
    {
        now_ns.saturating_sub(self.last_temp_update_ns) >= TEMP_UPDATE_INTERVAL_NS
    }

    /// Takes in what the sensors read: `texts` are the texts that could be read.
    pub fn temperature_update(&mut self, texts: &Vec<String>, now_ns: u128)
        ensures
            final(self).core_temperature == hottest(texts@),
            final(self).last_temp_update_ns == now_ns,
    {
        let mut max: u64 = 0;
        for i in 0..texts.len()
            invariant
                max == hottest(texts@.take(i as int)),
        {
            assert(texts@.take(i + 1).drop_last() =~= texts@.take(i as int));
            let temp = match parse_u64(&trim(&chars_of(texts[i].as_str()))) {
                Some(v) => v,
                None => 0,
            };
            if temp > max {
                max = temp;
            }
        }
        assert(texts@.take(texts@.len() as int) =~= texts@);
        self.core_temperature = max;
        self.last_temp_update_ns = now_ns;
    }

    /// The device is too hot: the frame rate is lowered by one notch. Else it is raised.
    pub fn target_fps_offset(&self, threshold: TemperatureThreshold) -> (lower: bool)
        ensures
            lower == (self.core_temperature > threshold.limit()),
            threshold == TemperatureThreshold::Disabled ==> !lower,
    {
        let limit = match threshold {
            TemperatureThreshold::Disabled => u64::MAX,
            TemperatureThreshold::Temp(t) => t,
        };
        self.core_temperature > limit
    }
}

/// A temperature is read with white space round it, and a text that stands for none counts
/// for zero.
pub proof fn law_reading(front: Seq<char>, n: u64, back: Seq<char>, other: Seq<char>)
    requires
        forall|i: int| 0 <= i < front.len() ==> is_white(#[trigger] front[i]),
        forall|i: int| 0 <= i < back.len() ==> is_white(#[trigger] back[i]),
    ensures
        reading(front + digits_of(n as nat) + back) == n,
        number(trimmed(other), u64::MAX as nat) is None ==> reading(other) == 0,
{
    lemma_digits(n as nat);
    let s = digits_of(n as nat);
    assert(is_digit(s[0]) && is_digit(s[s.len() - 1]));
    law_trimmed(front, s, back);
    law_number_round_trip(n as nat, u64::MAX as nat);
}

/// The temperature is read again half a second after the last time, and no earlier.
pub proof fn law_temperature_is_due_after_half_a_second(thermal: Thermal, now_ns: u128)
    ensures
        thermal.due(now_ns) <==> now_ns >= thermal.last_temp_update_ns + 500_000_000,
{
}

/// A threshold is the temperature that it names. One that is disabled is above all others.
pub proof fn law_limit(t: u64)
    ensures
        TemperatureThreshold::Temp(t).limit() == t,
        t <= TemperatureThreshold::Disabled.limit(),
{
}

} // verus!
