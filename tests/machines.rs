use cs50::dna::longest_match;
use cs50::forth::{Error, Forth};
use cs50::helpers::{slice2, slice4};
use cs50::img::bmp::{adjacent_range, blur, gray_scale, is_bmp_filename, reflection, BMPFileHeader, BMPInfoHeader, Color};
use cs50::inheritance::Person;
use cs50::sort::{bubble_sort, merge_sort, quicksort, selection_sort};
use cs50::speller::{HashTable, List};
use cs50::seven_day_average::{percent_change, CovidRecord};
use cs50::volume::{is_wav_filename, samples_from_bytes, WavAudioFile16, WavAudioFileHeader};
use cs50::world_cup::{Team, Tournament, TournamentError};

fn run(f: &mut Forth, input: &str) -> Result<(), Error> {
    f.eval(input)
}

#[test]
fn forth_arithmetic() {
    let mut f = Forth::new();
    assert!(run(&mut f, "1 2 + 4 *").is_ok());
    assert_eq!(f.stack(), &[12]);
    assert!(run(&mut f, "3 -").is_ok());
    assert_eq!(f.stack(), &[9]);
    assert!(run(&mut f, "-3 /").is_ok());
    assert_eq!(f.stack(), &[-3]);
}

#[test]
fn forth_stack_words() {
    let mut f = Forth::new();
    assert!(run(&mut f, "1 2 swap over dup drop").is_ok());
    assert_eq!(f.stack(), &[2, 1, 2]);
}

#[test]
fn forth_errors() {
    let mut f = Forth::new();
    assert_eq!(run(&mut f, "1 0 /"), Err(Error::DivisionByZero));
    assert_eq!(f.stack(), &[1, 0]);
    let mut g = Forth::new();
    assert_eq!(run(&mut g, "1 +"), Err(Error::StackUnderflow));
    assert_eq!(g.stack(), &[] as &[i32]);
    assert_eq!(run(&mut g, "foo"), Err(Error::UnknownWord));
    assert_eq!(run(&mut g, ": 1 2 ;"), Err(Error::InvalidWord));
    assert_eq!(run(&mut g, ": foo 1"), Err(Error::InvalidWord));
    assert_eq!(run(&mut g, "drop"), Err(Error::StackUnderflow));
}

#[test]
fn forth_user_words() {
    let mut f = Forth::new();
    assert_eq!(run(&mut f, ": dup-twice dup dup ;"), Err(Error::StackUnderflow));
    assert!(run(&mut f, "1 : dup-twice dup dup ; dup-twice").is_ok());
    assert_eq!(f.stack(), &[1, 1, 1]);
    assert!(run(&mut f, ": FOO 5 ;").is_ok());
    assert!(run(&mut f, "foo Foo").is_ok());
    assert_eq!(f.stack(), &[1, 1, 1, 5, 5]);
    assert!(run(&mut f, ": nop swap swap ; 7 nop").is_ok());
    assert_eq!(f.stack(), &[1, 1, 1, 5, 5, 7]);
}

#[test]
fn forth_definitions_keep_their_meaning() {
    let mut f = Forth::new();
    assert!(run(&mut f, ": foo 5 ;").is_ok());
    assert!(run(&mut f, ": bar foo ;").is_ok());
    assert!(run(&mut f, ": foo 6 ;").is_ok());
    assert!(run(&mut f, "bar foo").is_ok());
    assert_eq!(f.stack(), &[5, 6]);
}

#[test]
fn forth_wraps_on_overflow() {
    let mut f = Forth::new();
    assert!(run(&mut f, "2147483647 1 +").is_ok());
    assert_eq!(f.stack(), &[i32::MIN]);
    assert_eq!(run(&mut f, "99999999999"), Err(Error::UnknownWord));
}

#[test]
fn forth_define_word_directly() {
    let mut f = Forth::new();
    let words: Vec<Vec<char>> = [":", "inc", "1", "+", ";"].iter().map(|w| w.chars().collect()).collect();
    f.push(4);
    assert_eq!(f.define_word(&words), Ok(4));
    assert!(run(&mut f, "inc").is_ok());
    assert_eq!(f.stack(), &[5]);
}

#[test]
fn sorts_agree() {
    let input = vec![5, -1, 3, 3, 0, 9, -7, 2];
    let expected = vec![-7, -1, 0, 2, 3, 3, 5, 9];
    let mut a = input.clone();
    selection_sort(&mut a);
    assert_eq!(a, expected);
    let mut b = input.clone();
    bubble_sort(&mut b);
    assert_eq!(b, expected);
    let mut c = input.clone();
    merge_sort(&mut c);
    assert_eq!(c, expected);
    let mut d = input.clone();
    quicksort(&mut d);
    assert_eq!(d, expected);
    let mut e: Vec<i32> = vec![];
    quicksort(&mut e);
    bubble_sort(&mut e);
    assert!(e.is_empty());
}

#[test]
fn hash_table_lookup() {
    let mut t = HashTable::new();
    t.add("apple".to_string());
    t.add("banana".to_string());
    assert!(t.contains("apple"));
    assert!(t.contains("banana"));
    assert!(!t.contains("cherry"));
    assert_eq!(t.len(), 2);
    let small = HashTable::with_capacity(0);
    assert!(!small.contains("x"));
}

#[test]
fn prime_capacities() {
    assert!(HashTable::<String>::is_prime(19));
    assert!(!HashTable::<String>::is_prime(21));
    assert_eq!(HashTable::<String>::next_capacity(20), 23);
    assert_eq!(HashTable::<String>::next_capacity(19), 19);
}

#[test]
fn linked_list_appends() {
    let mut l: List<String> = List::new();
    l.add("a".to_string());
    l.add("b".to_string());
    assert!(l.contains(&"b".to_string()));
    assert!(!l.contains(&"c".to_string()));
}

#[test]
fn bmp_headers_round_trip() {
    let mut bytes: Vec<u8> = vec![0x42, 0x4d, 0x36, 0x10, 0x0e, 0x00, 0, 0, 0, 0, 54, 0, 0, 0];
    let h = BMPFileHeader::new(&bytes);
    assert_eq!(h.bf_type, 0x4d42);
    assert_eq!(h.bf_size, 0x000e1036);
    assert_eq!(h.bf_off_bits, 54);
    assert_eq!(h.to_bytes(), bytes);
    bytes = vec![40, 0, 0, 0, 2, 0, 0, 0, 0xfe, 0xff, 0xff, 0xff, 1, 0, 24, 0];
    bytes.extend_from_slice(&[0; 24]);
    let i = BMPInfoHeader::new(&bytes);
    assert_eq!(i.bi_size, 40);
    assert_eq!(i.bi_width, 2);
    assert_eq!(i.bi_height, -2);
    assert_eq!(i.bi_bit_count, 24);
    assert_eq!(i.to_bytes(), bytes);
}

#[test]
fn colors_and_filters() {
    let c = Color::from_le_bytes([1, 2, 3]);
    assert_eq!(c, Color(3, 2, 1));
    assert_eq!(c.to_le_bytes(), [1, 2, 3]);
    assert_eq!(c.to_be_bytes(), [3, 2, 1]);
    let image = vec![vec![Color(10, 20, 31), Color(0, 0, 3)]];
    assert_eq!(gray_scale(&image), vec![vec![Color(20, 20, 20), Color(1, 1, 1)]]);
    assert_eq!(reflection(&image), vec![vec![Color(0, 0, 3), Color(10, 20, 31)]]);
    assert!(is_bmp_filename("a.b.bmp"));
    assert!(!is_bmp_filename("a.bmp.png"));
    assert_eq!(adjacent_range(0, 1, 0, 5), (0, 1));
    assert_eq!(adjacent_range(5, 1, 0, 5), (4, 5));
    assert_eq!(adjacent_range(3, 1, 0, 5), (2, 4));
    assert_eq!(slice2(&[1, 2]), [1, 2]);
    assert_eq!(slice4(&[1, 2, 3, 4]), [1, 2, 3, 4]);
}

#[test]
fn wav_header_round_trip() {
    let mut bytes = [0u8; 44];
    bytes[0..4].copy_from_slice(b"RIFF");
    bytes[4] = 36;
    bytes[8..12].copy_from_slice(b"WAVE");
    bytes[12..16].copy_from_slice(b"fmt ");
    bytes[16] = 16;
    bytes[20] = 1;
    bytes[22] = 2;
    bytes[24] = 0x44;
    bytes[25] = 0xac;
    bytes[34] = 16;
    bytes[36..40].copy_from_slice(b"data");
    let h = WavAudioFileHeader::new(&bytes);
    assert_eq!(h.chunk_id, "RIFF");
    assert_eq!(h.sample_rate, 44100);
    assert_eq!(h.bits_per_sample, 16);
    assert_eq!(h.sub_chunk2_id, "data");
    assert_eq!(h.to_bytes(), bytes.to_vec());
    assert!(is_wav_filename("song.wav"));
    assert!(!is_wav_filename("song.mp3"));
    assert_eq!(samples_from_bytes(&vec![0xff, 0xff, 0x01, 0x00, 7]), vec![-1, 1]);
}

#[test]
fn dna_repeats() {
    assert_eq!(longest_match("AGAT", "AAGATAGATAGATT"), 3);
    assert_eq!(longest_match("AATG", "CCCC"), 0);
    assert_eq!(longest_match("TC", "TCTCGGTC"), 2);
}

#[test]
fn family_trees_are_complete() {
    let p = Person::create_family(3);
    let parents = p.parents.as_ref().expect("parents");
    assert!(parents.0.alleles.contains(&p.alleles[0]));
    assert!(parents.1.alleles.contains(&p.alleles[1]));
    let grand = parents.0.parents.as_ref().expect("grandparents");
    assert!(grand.0.parents.is_none());
    assert!(grand.1.alleles.iter().all(|a| "ABO".contains(*a)));
}

#[test]
fn tournament_rounds() {
    assert_eq!(Tournament::simulate_round(&vec![0, 1, 2, 3], &vec![true, false]), vec![0, 3]);
    assert_eq!(Tournament::simulate_round(&vec![4, 5, 6], &vec![false]), vec![5, 6]);
    let teams = vec![
        Team { name: "X".to_string(), rating: 1 },
        Team { name: "Y".to_string(), rating: 2 },
    ];
    let t = Tournament::from_teams(teams).ok().expect("two teams");
    assert_eq!(t.simulate(&vec![1, 0, 1]), vec![(1, 2), (0, 1)]);
    assert!(matches!(Tournament::from_teams(vec![]), Err(TournamentError::Empty)));
    let odd = vec![Team { name: "Z".to_string(), rating: 3 }];
    assert!(matches!(Tournament::from_teams(odd), Err(TournamentError::OddTeams)));
}


#[test]
fn family_tree_text() {
    let p = Person::create_family(2);
    let text = p.as_string(0);
    let lines: Vec<&str> = text.lines().collect();
    assert_eq!(lines.len(), 3);
    assert!(lines[0].starts_with("(Generation 0): Blood type "));
    assert!(lines[1].starts_with("\t(Generation 1): Blood type "));
    assert_eq!(lines[2].len(), lines[1].len());
}

#[test]
fn wav_file_needs_sixteen_bits() {
    let mut bytes = [0u8; 44];
    bytes[34] = 16;
    let f = WavAudioFile16::from_bytes(&bytes, &vec![1, 0, 2, 0]).expect("16 bits");
    assert_eq!(f.data, vec![1, 2]);
    bytes[34] = 8;
    assert!(WavAudioFile16::from_bytes(&bytes, &vec![]).is_none());
    assert!(WavAudioFile16::is_wav_filename("a.wav"));
}

#[test]
fn recovered_file_names() {
    assert_eq!(cs50::recover::filename(0), "000.jpeg");
    assert_eq!(cs50::recover::filename(42), "042.jpeg");
    assert_eq!(cs50::recover::filename(1234), "1234.jpeg");
    assert!(cs50::recover::is_jpeg_start(&[0xff, 0xd8, 0xff, 0xe3, 0]));
    assert!(!cs50::recover::is_jpeg_start(&[0xff, 0xd8, 0xff, 0xd3]));
}

#[test]
fn pyramids_and_greetings() {
    assert_eq!(cs50::mario::pyramid(2, false), " #\n##\n");
    assert_eq!(cs50::mario::pyramid(2, true), " #  #\n##  ##\n");
    assert_eq!(cs50::bank::greeting_value("Hello"), 100);
    assert_eq!(cs50::bank::greeting_value("hey"), 20);
    assert_eq!(cs50::bank::greeting_value("What's up"), 0);
}

#[test]
fn weekly_averages() {
    let week: Vec<CovidRecord> = [10, 20, 30, -5].iter().map(|c| CovidRecord::new(*c, 0, 0)).collect();
    assert_eq!(CovidRecord::average(&week), 13);
    let neg: Vec<CovidRecord> = [-7, -8].iter().map(|c| CovidRecord::new(*c, 0, 0)).collect();
    assert_eq!(CovidRecord::average(&neg), -7);
    assert_eq!(percent_change(150, 100), 50);
    assert_eq!(percent_change(50, 100), -50);
    assert_eq!(percent_change(5, 0), 100);
}

#[test]
fn blur_averages_neighbours() {
    let image = vec![vec![Color(0, 0, 0), Color(9, 3, 6)], vec![Color(3, 3, 3), Color(0, 2, 3)]];
    let out = blur(&image, 2);
    assert_eq!(out, vec![vec![Color(3, 2, 3); 2]; 2]);
}

#[test]
fn bitmap_file_round_trip() {
    let mut bytes: Vec<u8> = vec![0x42, 0x4d, 0, 0, 0, 0, 0, 0, 0, 0, 54, 0, 0, 0];
    bytes.extend_from_slice(&[40, 0, 0, 0, 1, 0, 0, 0, 2, 0, 0, 0, 1, 0, 24, 0]);
    bytes.extend_from_slice(&[0; 24]);
    bytes.extend_from_slice(&[1, 2, 3, 0, 4, 5, 6, 0]);
    let f = cs50::img::bmp::BMPFile24::from_bytes(&bytes).expect("a bitmap");
    assert_eq!(f.data, vec![vec![Color(3, 2, 1)], vec![Color(6, 5, 4)]]);
    assert_eq!(f.to_bytes(&f.data), bytes);
    let mut bad = bytes.clone();
    bad[28] = 8;
    assert!(cs50::img::bmp::BMPFile24::from_bytes(&bad).is_none());
    assert!(cs50::img::bmp::BMPFile24::from_bytes(&bytes[..60].to_vec()).is_none());
    assert!(cs50::img::bmp::BMPFile24::is_bmp_filename("x.bmp"));
}

#[test]
fn totals_become_daily_counts() {
    let mut list: Vec<CovidRecord> = [(15, 2), (21, 2), (30, 5)].iter().map(|(c, d)| CovidRecord::new(*c, *d, 0)).collect();
    cs50::seven_day_average::daily_from_totals(10, 1, &mut list);
    let counts: Vec<(i32, i32)> = list.iter().map(|r| (r.cases, r.deaths)).collect();
    assert_eq!(counts, vec![(5, 1), (6, 0), (9, 3)]);
}

#[test]
fn forth_input_is_trimmed_and_lowered() {
    let mut f = Forth::new();
    assert!(run(&mut f, "  1 2 SWAP  ").is_ok());
    assert_eq!(f.stack(), &[2, 1]);
    assert_eq!(run(&mut f, "1  2"), Err(Error::UnknownWord));
    assert!(run(&mut f, "").is_ok());
}

#[test]
fn spell_check_lines() {
    let mut t = HashTable::new();
    t.add("cat".to_string());
    t.add("it's".to_string());
    let (count, missing) = t.check_line("The CAT, it's here!").expect("pattern compiles");
    assert_eq!(count, 4);
    assert_eq!(missing, vec!["the".to_string(), "here".to_string()]);
    let (count, missing) = t.count_misspelled(&vec!["".to_string(), "cat".to_string(), "dog".to_string()]);
    assert_eq!((count, missing), (2, vec!["dog".to_string()]));
}

#[test]
fn dna_records_match() {
    let rows = vec![vec![1, 2], vec![3, 4], vec![3, 4]];
    assert_eq!(cs50::dna::matching_record(&rows, &vec![3, 4]), Some(1));
    assert_eq!(cs50::dna::matching_record(&rows, &vec![3]), None);
}

#[test]
fn hash_table_capacities() {
    assert_eq!(HashTable::<String>::next_capacity(8), 11);
    let t = HashTable::with_capacity(8);
    t.contains("x");
}
