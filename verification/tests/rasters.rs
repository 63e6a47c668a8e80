use omastorm::cog::{decode_float_cog, write_float_cog, CogError};
use omastorm::ieee::{Double, Single};

fn d(x: f64) -> Double {
    Double { bits: x.to_bits() }
}

fn s(x: f32) -> Single {
    Single { bits: x.to_bits() }
}

fn bits(list: &[Double]) -> Vec<u64> {
    list.iter().map(|x| x.bits).collect()
}

fn gt() -> Vec<Double> {
    [-500.0, 1000.0, 0.25, 500.0, 0.5, -1000.0].iter().map(|x| d(*x)).collect()
}

fn band(w: u32, h: u32, scale: f32) -> Vec<Single> {
    (0..w * h).map(|i| s(i as f32 * scale)).collect()
}

#[test]
fn what_is_written_is_read_back() {
    for (w, h, tw, th) in [(1, 1, 1, 1), (5, 3, 2, 2), (32, 32, 16, 16), (7, 9, 16, 16), (3, 40, 4, 7)]
    {
        for nodata in [-9_999_000, 0, 1, -1, 255, 16_777_215, -16_777_215] {
            let band0 = band(w, h, 1.5);
            let band1 = band(w, h, -2.0);
            let params = [d(55.0), d(10.0)];
            let bytes =
                write_float_cog(w, h, tw, th, &gt(), &params, nodata, &band0, &band1).unwrap();
            let raster = decode_float_cog(&bytes).unwrap();
            assert_eq!((raster.width, raster.height), (w, h));
            assert_eq!(
                raster.values.iter().map(|v| v.bits).collect::<Vec<_>>(),
                band0.iter().map(|v| v.bits).collect::<Vec<_>>()
            );
            assert_eq!(f32::from_bits(raster.nodata.unwrap().bits), nodata as f32);
            assert_eq!(bits(&raster.geotransform), bits(&gt()));
            assert_eq!(bits(&raster.geo_double_params), bits(&params));
        }
    }
}

#[test]
fn what_cannot_be_written_is_refused() {
    let one = [s(1.0)];
    let p = [d(1.0)];
    let refused = |r: Result<Vec<u8>, CogError>| assert_eq!(r.unwrap_err(), CogError::Layout);
    refused(write_float_cog(0, 1, 1, 1, &gt(), &p, 0, &[], &[]));
    refused(write_float_cog(1, 1, 0, 1, &gt(), &p, 0, &one, &one));
    refused(write_float_cog(1, 1, 1, 1, &gt()[..5], &p, 0, &one, &one));
    refused(write_float_cog(1, 1, 1, 1, &gt(), &[], 0, &one, &one));
    refused(write_float_cog(1, 1, 1, 1, &gt(), &p, 16_777_216, &one, &one));
    refused(write_float_cog(1, 1, 1, 1, &gt(), &p, 0, &one, &[]));
    refused(write_float_cog(1, 1, u32::MAX, u32::MAX, &gt(), &p, 0, &one, &one));
    refused(write_float_cog(1, 1, 65_535, 65_535, &gt(), &p, 0, &one, &one));
}

fn file() -> Vec<u8> {
    let cells = band(4, 4, 1.0);
    write_float_cog(4, 4, 2, 2, &gt(), &[d(55.0)], -7, &cells, &cells).unwrap()
}

fn entry(bytes: &[u8], tag: u16) -> usize {
    (0..16).map(|k| 10 + 12 * k).find(|e| bytes[*e..*e + 2] == tag.to_le_bytes()).unwrap()
}

#[test]
fn broken_files_are_told_apart() {
    let error = |bytes: &[u8]| decode_float_cog(bytes).unwrap_err();
    assert_eq!(error(&[]), CogError::NotTiff);
    assert_eq!(error(b"MM\0*\0\0\0\x08"), CogError::NotTiff);
    let good = file();
    assert!(decode_float_cog(&good).is_ok());
    assert_eq!(error(&good[..100]), CogError::NotTiff);
    let mut zipped = good.clone();
    let e = entry(&good, 259);
    zipped[e + 8] = 8;
    assert_eq!(error(&zipped), CogError::Layout);
    let mut empty = good.clone();
    let e = entry(&good, 256);
    empty[e + 8] = 0;
    assert_eq!(error(&empty), CogError::Layout);
    let mut few = good.clone();
    let e = entry(&good, 324);
    few[e + 4] = 2;
    assert_eq!(error(&few), CogError::Layout);
    assert_eq!(error(&good[..good.len() - 80]), CogError::Truncated);
    let mut lost = good.clone();
    let e = entry(&good, 34264);
    lost[e] = 0xd9;
    assert_eq!(error(&lost), CogError::NoGeoreference);
    assert_eq!(CogError::NotTiff.text(), "not a little-endian TIFF");
    assert_eq!(CogError::Layout.text(), "unsupported COG layout");
    assert_eq!(CogError::Truncated.text(), "truncated COG");
    assert_eq!(CogError::NoGeoreference.text(), "COG without a model transformation");
}

#[test]
fn other_missing_values_are_left_out() {
    let good = file();
    let e = entry(&good, 42113);
    let at = u32::from_le_bytes([good[e + 8], good[e + 9], good[e + 10], good[e + 11]]) as usize;
    assert_eq!(&good[at..at + 10], b"-00000007\0");
    let read = |text: &[u8; 10]| {
        let mut bytes = good.clone();
        bytes[at..at + 10].copy_from_slice(text);
        decode_float_cog(&bytes).unwrap().nodata.map(|v| f32::from_bits(v.bits))
    };
    assert_eq!(read(b"-9999000\0\0"), Some(-9_999_000.0));
    assert_eq!(read(b"255\0\0\0\0\0\0\0"), Some(255.0));
    assert_eq!(read(b"16777216\0\0"), None);
    assert_eq!(read(b"nan\0\0\0\0\0\0\0"), None);
    assert_eq!(read(b"-\0\0\0\0\0\0\0\0\0"), None);
    assert_eq!(read(b"1.5\0\0\0\0\0\0\0"), None);
    let mut bare = good.clone();
    bare[e] = 0;
    assert!(decode_float_cog(&bare).unwrap().nodata.is_none());
}
