use amazon_cloudfront_client_routing_lib::client_routing_label::EncodableData;
use amazon_cloudfront_client_routing_lib::encode_decode::Base32;

const ALPHABET: &[u8] = b"abcdefghijklmnopqrstuvwxyz234567";

// A small generator of numbers that look random and are the same in every run.
struct Numbers {
    state: u64,
}

impl Numbers {
    fn next(&mut self) -> u64 {
        self.state ^= self.state << 13;
        self.state ^= self.state >> 7;
        self.state ^= self.state << 17;
        self.state
    }
}

fn bits_of(data: &[EncodableData]) -> Vec<bool> {
    let mut bits = Vec::new();
    for field in data {
        for place in (0..field.num_bits as u32).rev() {
            bits.push(place < 64 && (field.value >> place) & 1 == 1);
        }
    }
    bits
}

fn label_of(bits: &[bool]) -> String {
    let mut label = String::new();
    for group in bits.chunks(5) {
        let mut symbol: usize = 0;
        for place in 0..5 {
            symbol = 2 * symbol + (place < group.len() && group[place]) as usize;
        }
        label.push(ALPHABET[symbol] as char);
    }
    label
}

fn bits_in(label: &[u8]) -> Vec<bool> {
    let mut bits = Vec::new();
    for byte in label {
        let symbol = ALPHABET.iter().position(|letter| letter == byte).unwrap_or(0);
        for place in (0..5).rev() {
            bits.push((symbol >> place) & 1 == 1);
        }
    }
    bits
}

fn values_in(widths: &[u8], bits: &[bool]) -> Vec<u64> {
    let mut values = Vec::new();
    let mut start: usize = 0;
    for width in widths {
        let mut value: u64 = 0;
        for bit in &bits[start..start + *width as usize] {
            value = (value << 1) | *bit as u64;
        }
        values.push(value);
        start += *width as usize;
    }
    values
}

fn some_fields(numbers: &mut Numbers) -> Vec<EncodableData> {
    let count = numbers.next() % 8;
    let mut data = Vec::new();
    let mut total: u64 = 0;
    for _ in 0..count {
        let limit = match numbers.next() % 4 {
            0 => 5,
            1 => 12,
            2 => 65,
            _ => 100,
        };
        let num_bits = (numbers.next() % limit).min(255 - total);
        total += num_bits;
        let value = match numbers.next() % 3 {
            0 => numbers.next(),
            1 => numbers.next() % 64,
            _ => 0,
        };
        data.push(EncodableData {
            value,
            num_bits: num_bits as u8,
        });
    }
    data
}

#[test]
fn encode_gives_the_bits_of_the_fields_five_to_a_character() {
    let mut numbers = Numbers {
        state: 0x9e37_79b9_7f4a_7c15,
    };
    for _ in 0..3000 {
        let mut data = some_fields(&mut numbers);
        let expected = label_of(&bits_of(&data));
        let values: Vec<u64> = data.iter().map(|field| field.value).collect();
        let widths: Vec<u8> = data.iter().map(|field| field.num_bits).collect();

        assert_eq!(expected, Base32 {}.encode(&mut data));
        assert_eq!(
            values,
            data.iter().map(|field| field.value).collect::<Vec<u64>>()
        );
        assert_eq!(
            widths,
            data.iter().map(|field| field.num_bits).collect::<Vec<u8>>()
        );
    }
}

#[test]
fn decode_gives_each_field_the_bits_at_its_place() {
    let mut numbers = Numbers {
        state: 0x2545_f491_4f6c_dd1d,
    };
    for _ in 0..3000 {
        let mut data = some_fields(&mut numbers);
        let widths: Vec<u8> = data.iter().map(|field| field.num_bits).collect();
        let total: usize = widths.iter().map(|width| *width as usize).sum();
        let label: Vec<u8> = (0..(total + 4) / 5)
            .map(|_| match numbers.next() % 8 {
                0 => (numbers.next() % 256) as u8,
                _ => ALPHABET[(numbers.next() % 32) as usize],
            })
            .collect();
        let expected = values_in(&widths, &bits_in(&label));

        assert!(Base32 {}.decode(&mut data, &label, total as u8).is_ok());
        assert_eq!(
            expected,
            data.iter().map(|field| field.value).collect::<Vec<u64>>()
        );
        assert_eq!(
            widths,
            data.iter().map(|field| field.num_bits).collect::<Vec<u8>>()
        );
    }
}

#[test]
fn decode_of_encode_cuts_each_value_to_its_width() {
    let mut numbers = Numbers {
        state: 0x0123_4567_89ab_cdef,
    };
    for _ in 0..3000 {
        let mut data = some_fields(&mut numbers);
        let total: usize = data.iter().map(|field| field.num_bits as usize).sum();
        let expected: Vec<u64> = data
            .iter()
            .map(|field| match field.num_bits {
                0 => 0,
                1..=63 => field.value & ((1 << field.num_bits) - 1),
                _ => field.value,
            })
            .collect();
        let label = Base32 {}.encode(&mut data);
        assert_eq!((total + 4) / 5, label.len());

        for field in data.iter_mut() {
            field.value = numbers.next();
        }
        assert!(Base32 {}
            .decode(&mut data, label.as_bytes(), total as u8)
            .is_ok());
        assert_eq!(
            expected,
            data.iter().map(|field| field.value).collect::<Vec<u64>>()
        );
    }
}
