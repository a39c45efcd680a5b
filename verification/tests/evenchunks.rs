use binlearn::evenchunks::EvenChunks;

fn lengths(len: usize, n: usize) -> Vec<usize> {
    let data: Vec<usize> = (0..len).collect();
    EvenChunks::nchunks(&data, n)
        .collect()
        .iter()
        .map(|c| c.len())
        .collect()
}

#[test]
fn ten_elements_in_three_chunks() {
    assert_eq!(lengths(10, 3), vec![4, 3, 3]);
}

#[test]
fn chunks_hold_the_elements_in_order() {
    let data: Vec<u32> = (0..10).collect();
    let chunks = EvenChunks::nchunks(&data, 3).collect();
    assert_eq!(chunks.len(), 3);
    assert_eq!(chunks[0], &[0, 1, 2, 3]);
    assert_eq!(chunks[1], &[4, 5, 6]);
    assert_eq!(chunks[2], &[7, 8, 9]);
}

#[test]
fn chunks_joined_give_the_slice_back() {
    for len in 1..40usize {
        let data: Vec<usize> = (0..len).map(|x| x * 7 + 1).collect();
        for n in 1..=len {
            let chunks = EvenChunks::nchunks(&data, n).collect();
            assert_eq!(chunks.len(), n);
            let joined: Vec<usize> = chunks.iter().flat_map(|c| c.iter().cloned()).collect();
            assert_eq!(joined, data);
        }
    }
}

#[test]
fn longer_chunks_come_first() {
    for len in 1..40usize {
        for n in 1..=len {
            let got = lengths(len, n);
            let small = len / n;
            let extra = len % n;
            for (i, l) in got.iter().enumerate() {
                let want = if i < extra { small + 1 } else { small };
                assert_eq!(*l, want);
                assert!(*l >= 1);
            }
            assert_eq!(got.iter().sum::<usize>(), len);
        }
    }
}

#[test]
fn exact_division_gives_equal_chunks() {
    assert_eq!(lengths(12, 4), vec![3, 3, 3, 3]);
}

#[test]
fn one_chunk_is_the_whole_slice() {
    let data = [5u8, 6, 7];
    let chunks = EvenChunks::nchunks(&data, 1).collect();
    assert_eq!(chunks, vec![&[5u8, 6, 7][..]]);
}

#[test]
fn as_many_chunks_as_elements() {
    assert_eq!(lengths(5, 5), vec![1, 1, 1, 1, 1]);
}

#[test]
fn one_extra_element() {
    assert_eq!(lengths(7, 3), vec![3, 2, 2]);
}

#[test]
fn all_but_one_chunk_longer() {
    assert_eq!(lengths(11, 4), vec![3, 3, 3, 2]);
}

#[test]
fn next_hands_out_chunks_one_by_one() {
    let data = [1u8, 2, 3, 4, 5];
    let mut chunks = EvenChunks::nchunks(&data, 2);
    assert_eq!(chunks.next(), Some(&[1u8, 2, 3][..]));
    assert_eq!(chunks.next(), Some(&[4u8, 5][..]));
    assert_eq!(chunks.next(), None);
    assert_eq!(chunks.next(), None);
}

#[test]
fn collect_after_next_gives_the_rest() {
    let data = [1u8, 2, 3, 4, 5, 6, 7];
    let mut chunks = EvenChunks::nchunks(&data, 3);
    assert_eq!(chunks.next(), Some(&[1u8, 2, 3][..]));
    let rest = chunks.collect();
    assert_eq!(rest, vec![&[4u8, 5][..], &[6u8, 7][..]]);
}
